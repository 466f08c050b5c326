//! Lock-free overwrite ring for one producer and one consumer.
//!
//! # Overview
//! - The producer never waits; a write overwrites the oldest slot once the ring
//!   has wrapped.
//! - Each write gets a sequence number, a `u32` that counts up from 1; `0` means
//!   "empty".
//! - The consumer drains in order (`poll_one`, `poll_up_to`) or samples the
//!   newest value (`latest`).
//! - A consumer that lags by more than `N` skips ahead and reports how many
//!   items it lost.
//!
//! # Memory ordering
//! The producer writes the value, publishes the slot's tag, then publishes the
//! newest sequence number. The consumer checks the slot's tag before and after
//! it copies the value, and discards a copy whose tag has changed.
//!
//! # What the contracts cover
//! The shared state lives in atomics and cells that the other side may change
//! between any two steps, so no contract speaks of what they hold at a given
//! moment. Every function here returns, without panic, whatever it loads.
//! The contracts state
//! - what a ring was made as ([`SeqRing::made_as`]): the counters, tags and
//!   flags that its atomics were created with, and its slots made empty;
//! - which ring a handle is bound to;
//! - what holds of the consumer's own cursor and drop counter whatever was
//!   loaded, and which calls its hook has returned from.
//!
//! What the ring decides from a loaded value is computed by the functions of
//! [`crate::sequence`], whose contracts are exact, and [`crate::model`]
//! states what the same decisions add up to while nothing else touches the
//! ring.
//!
//! # Handles
//! `producer()` and `consumer()` admit one handle of each kind at a time.
//! A handle is given back with `release()`; one that merely goes out of scope
//! stays counted as live.

use crate::model::RingModel;
use crate::sequence::advanced;
use crate::sequence::caught_up;
use crate::sequence::lag;
use crate::sequence::lemma_advanced_twice;
use crate::sequence::lemma_step_closes_in;
use crate::sequence::next_sequence;
use crate::sequence::poll_step;
use crate::sequence::skip_target;
use crate::sequence::slot_of;
use crate::sequence::tallied;
use crate::sequence::tag_carries;
use crate::sequence::tally;
use crate::sequence::PollStep;
use crate::trusted::flag_made_with;
use crate::trusted::u32_made_with;
use core::sync::atomic::Ordering;
use portable_atomic::AtomicBool;
use portable_atomic::AtomicU32;
use vstd::cell::invcell::InvCell;
use vstd::predicate::Predicate;
use vstd::prelude::*;

verus! {

/// The predicate of a slot's cell. It admits every value, and it records
/// what the cell held when it was made.
pub struct MadeHolding<T> {
    pub first: Option<T>,
}

impl<T> Predicate<Option<T>> for MadeHolding<T> {
    open spec fn predicate(&self, v: Option<T>) -> bool {
        true
    }
}

/// One value cell of a ring. It is empty until the first write reaches it.
pub type Slot<T> = InvCell<Option<T>, MadeHolding<T>>;

/// An array of `N` tags, each created with `init`.
fn atomic_u32_array<const N: usize>(init: u32) -> (tags: [AtomicU32; N])
    ensures
        forall|i: int| 0 <= i < N ==> u32_made_with(#[trigger] tags[i]) == init,
{
    let make = |_i: usize| -> (tag: AtomicU32)
        ensures
            u32_made_with(tag) == init,
        { AtomicU32::new(init) };
    core::array::from_fn(make)
}

/// The cell of slot `_index`, made empty.
fn empty_slot<T: Copy>(_index: usize) -> (cell: Slot<T>)
    ensures
        cell.predicate().first is None,
{
    InvCell::new(None, Ghost(MadeHolding { first: None }))
}

/// An array of `N` slots, each made empty and each able to take any value.
pub fn unsafe_cell_array<T: Copy, const N: usize>() -> (slots: [Slot<T>; N])
    ensures
        forall|i: int| 0 <= i < N ==> (#[trigger] slots[i]).predicate().first is None,
        forall|i: int, v: Option<T>| 0 <= i < N ==> #[trigger] slots[i].inv(v),
{
    core::array::from_fn(empty_slot::<T>)
}

/// What an in-order poll has handed to its hook. `items[i]` stands for the
/// call number `i`: how many steps past `from` its sequence number lies, and
/// the value. The sequence numbers come in the order in which the cursor
/// passes them, none of them is 0 or more than `steps` past `from`, and the
/// hook has returned from each call.
pub open spec fn handed_in_order<T, F: FnMut(u32, &T)>(
    hook: F,
    from: u32,
    steps: int,
    items: Seq<(int, T)>,
) -> bool {
    &&& forall|i: int| 0 <= i < items.len() ==> 1 <= (#[trigger] items[i]).0 <= steps
    &&& forall|i: int, j: int|
        0 <= i < j < items.len() ==> (#[trigger] items[i]).0 < (#[trigger] items[j]).0
    &&& forall|i: int| 0 <= i < items.len() ==> advanced(from, (#[trigger] items[i]).0) != 0
    &&& forall|i: int|
        0 <= i < items.len() ==> call_ensures(
            hook,
            (advanced(from, (#[trigger] items[i]).0), &items[i].1),
            (),
        )
}

/// What one call of `poll_up_to` did.
#[must_use]
#[derive(Copy, Clone, Debug)]
pub struct PollStats {
    /// Number of items delivered to the hook.
    pub read: usize,
    /// Number of items skipped because the consumer lagged or a slot was overwritten.
    pub dropped: usize,
    /// Newest sequence number observed while polling.
    pub newest: u32,
}

/// Overwrite ring of `N` slots. The producer never waits; the consumer loses
/// items when it lags by more than `N`.
pub struct SeqRing<T: Copy, const N: usize> {
    next_seq: AtomicU32,
    published_seq: AtomicU32,
    slot_seq: [AtomicU32; N],
    slots: [Slot<T>; N],
    producer_taken: AtomicBool,
    consumer_taken: AtomicBool,
}

impl<T: Copy, const N: usize> SeqRing<T, N> {
    #[verifier::type_invariant]
    spec fn has_slots(&self) -> bool {
        N > 0
    }

    /// The ring as it was made: the values that its counters, tags and flags
    /// were created with, and what its slots were made holding. What the ring
    /// holds later is for its handles to find out.
    pub closed spec fn made_as(&self) -> RingModel<T> {
        RingModel {
            capacity: N,
            next_seq: u32_made_with(self.next_seq),
            published_seq: u32_made_with(self.published_seq),
            tags: Seq::new(N as nat, |i: int| u32_made_with(self.slot_seq[i])),
            values: Seq::new(N as nat, |i: int| self.slots[i].predicate().first),
            producer_live: flag_made_with(self.producer_taken),
            consumer_live: flag_made_with(self.consumer_taken),
        }
    }

    /// Creates an empty ring: all counters and tags are zero, and no handle is
    /// live. A ring needs at least one slot.
    pub fn new() -> (ring: Self)
        requires
            N > 0,
        ensures
            ring.made_as() == RingModel::<T>::fresh(N),
    {
        Self::with_counters(0, 0)
    }

    /// Creates a ring with every slot empty whose counters start at the given
    /// values: the next write is numbered from `next_seq`, and readers see
    /// `published_seq` as the newest sequence number.
    pub fn with_counters(next_seq: u32, published_seq: u32) -> (ring: Self)
        requires
            N > 0,
        ensures
            ring.made_as() == RingModel::<T>::with_counters(N, next_seq, published_seq),
    {
        let ring = Self {
            next_seq: AtomicU32::new(next_seq),
            published_seq: AtomicU32::new(published_seq),
            slot_seq: atomic_u32_array::<N>(0),
            slots: unsafe_cell_array::<T, N>(),
            producer_taken: AtomicBool::new(false),
            consumer_taken: AtomicBool::new(false),
        };
        assert(ring.made_as() =~= RingModel::<T>::with_counters(N, next_seq, published_seq));
        ring
    }

    /// The slot that holds sequence number `seq`: `(seq - 1) mod N`.
    pub fn idx_for(seq: u32) -> (idx: usize)
        requires
            N > 0,
        ensures
            idx == slot_of(seq, N),
            idx < N,
    {
        (seq.wrapping_sub(1) as usize) % N
    }

    /// Acquires the producer handle, or `None` while another one is live.
    ///
    /// The flag is set in one atomic step that also tells whether it was set
    /// before; a caller that is refused has changed nothing.
    pub fn producer(&self) -> (handle: Option<Producer<'_, T, N>>)
        ensures
            handle matches Some(p) ==> p.ring() == self,
    {
        let taken = self.producer_taken.swap(true, Ordering::AcqRel);
        Producer::admitted(self, taken)
    }

    /// Acquires the consumer handle, or `None` while another one is live. A
    /// new handle has delivered nothing and has counted no drops.
    ///
    /// The flag is set in one atomic step that also tells whether it was set
    /// before; a caller that is refused has changed nothing.
    pub fn consumer(&self) -> (handle: Option<Consumer<'_, T, N>>)
        ensures
            handle matches Some(c) ==> c.ring() == self && c.cursor() == 0 && c.drops() == 0,
    {
        let taken = self.consumer_taken.swap(true, Ordering::AcqRel);
        Consumer::admitted(self, taken)
    }

    /// The newest sequence number that has been published, or 0.
    pub fn newest_seq(&self) -> u32 {
        self.published_seq.load(Ordering::Acquire)
    }

    /// The sequence number that the latest write was given, or the value that
    /// the ring was created with.
    pub fn next_seq(&self) -> u32 {
        self.next_seq.load(Ordering::Relaxed)
    }

    /// Writes `value` under the next sequence number: the value goes into
    /// its slot first, then the slot's tag is published, then the newest
    /// sequence number.
    fn push_inner(&self, value: T) -> (seq: u32)
        ensures
            seq != 0,
    {
        proof {
            use_type_invariant(self);
        }
        let prev = self.next_seq.fetch_add(1, Ordering::Relaxed);
        let seq = next_sequence(prev);
        if prev == u32::MAX {
            self.next_seq.store(1, Ordering::Relaxed);
        }
        let idx = Self::idx_for(seq);
        self.slots[idx].set(Some(value));

        self.slot_seq[idx].store(seq, Ordering::Release);
        self.published_seq.store(seq, Ordering::Release);
        seq
    }

    /// First half of a slot read: copies the value out of the slot for `seq`
    /// if the slot's tag is `seq`. Sequence number 0 marks a slot that was
    /// never written, so there is nothing to copy for it.
    pub fn copy_out(&self, seq: u32) -> (copied: Option<T>)
        ensures
            seq == 0 ==> copied is None,
    {
        proof {
            use_type_invariant(self);
        }
        let idx = Self::idx_for(seq);
        let s1 = self.slot_seq[idx].load(Ordering::Acquire);
        if !tag_carries(s1, seq) {
            return None;
        }
        self.slots[idx].get()
    }

    /// Second half of a slot read: hands `copied` back if the slot for `seq`
    /// still carries the tag `seq`. If it does not, the slot was overwritten
    /// while the copy was taken, and the copy is discarded.
    pub fn confirm(&self, seq: u32, copied: T) -> (got: Option<T>)
        ensures
            got is None || got == Some(copied),
            seq == 0 ==> got is None,
    {
        proof {
            use_type_invariant(self);
        }
        let idx = Self::idx_for(seq);
        let s2 = self.slot_seq[idx].load(Ordering::Acquire);
        if !tag_carries(s2, seq) {
            return None;
        }
        Some(copied)
    }

    /// Reads the value with sequence number `seq`, or `None` if its slot holds
    /// another sequence number before or after the copy. Nothing is ever read
    /// under sequence number 0.
    pub fn read_seq_inner(&self, seq: u32) -> (got: Option<T>)
        ensures
            seq == 0 ==> got is None,
    {
        match self.copy_out(seq) {
            Some(v) => self.confirm(seq, v),
            None => None,
        }
    }
}

/// Producer handle for writing into the ring.
pub struct Producer<'a, T: Copy, const N: usize> {
    ring: &'a SeqRing<T, N>,
}

impl<'a, T: Copy, const N: usize> Producer<'a, T, N> {
    /// The ring that this handle writes into.
    pub closed spec fn ring(&self) -> &SeqRing<T, N> {
        self.ring
    }

    /// The handle for a caller that found the producer flag at `taken` when
    /// it set it: none if the flag was set already, else one for `ring`.
    fn admitted(ring: &'a SeqRing<T, N>, taken: bool) -> (handle: Option<Self>)
        ensures
            handle is None <==> taken,
            handle matches Some(p) ==> p.ring() == ring,
    {
        if taken {
            None
        } else {
            Some(Producer { ring })
        }
    }

    /// Writes a value into the ring.
    ///
    /// Returns the sequence number assigned to the write (never 0).
    pub fn push(&self, value: T) -> (seq: u32)
        ensures
            seq != 0,
    {
        self.ring.push_inner(value)
    }

    /// Gives the handle up, so that a producer can be acquired again.
    pub fn release(self) {
        self.ring.producer_taken.store(false, Ordering::Release);
    }
}

/// Consumer handle for reading from the ring.
pub struct Consumer<'a, T: Copy, const N: usize> {
    ring: &'a SeqRing<T, N>,
    last_seq: u32,
    dropped_accum: usize,
}

impl<'a, T: Copy, const N: usize> Consumer<'a, T, N> {
    /// The sequence number up to which this consumer has gone, 0 at the start.
    pub closed spec fn cursor(&self) -> u32 {
        self.last_seq
    }

    /// The drops counted since the handle was acquired or the counter reset.
    pub closed spec fn drops(&self) -> usize {
        self.dropped_accum
    }

    /// The ring that this handle reads from.
    pub closed spec fn ring(&self) -> &SeqRing<T, N> {
        self.ring
    }

    /// The handle for a caller that found the consumer flag at `taken` when
    /// it set it: none if the flag was set already, else one for `ring` that
    /// has delivered nothing and counted no drops.
    fn admitted(ring: &'a SeqRing<T, N>, taken: bool) -> (handle: Option<Self>)
        ensures
            handle is None <==> taken,
            handle matches Some(c) ==> c.ring() == ring && c.cursor() == 0 && c.drops() == 0,
    {
        if taken {
            None
        } else {
            Some(Consumer { ring, last_seq: 0, dropped_accum: 0 })
        }
    }

    /// How many items have been dropped since consumer creation (or since reset).
    pub fn dropped(&self) -> (count: usize)
        ensures
            count == self.drops(),
    {
        self.dropped_accum
    }

    /// Reset the internal drop counter.
    pub fn reset_dropped(&mut self)
        ensures
            final(self).drops() == 0,
            final(self).cursor() == old(self).cursor(),
            final(self).ring() == old(self).ring(),
    {
        self.dropped_accum = 0;
    }

    /// Moves the cursor forward, round by round, until it has read one item
    /// or has caught up with the newest sequence number. Each round loads the
    /// newest sequence number again. The drops of each round are added to
    /// `dropped`; a round whose drops `dropped` could not hold is not taken,
    /// and ends the search with the cursor before it.
    ///
    /// Returns the item read, if any, and the newest sequence number seen last.
    fn seek(&mut self, dropped: &mut usize) -> (found: (Option<(u32, T)>, u32))
        ensures
            final(self).drops() == old(self).drops(),
            final(self).ring() == old(self).ring(),
            *old(dropped) <= *final(dropped),
            match found.0 {
                Some((seq, _)) => {
                    &&& seq != 0
                    &&& final(self).cursor() == seq
                    &&& seq == advanced(
                        old(self).cursor(),
                        *final(dropped) - *old(dropped) + 1,
                    )
                },
                None => {
                    &&& final(self).cursor() == advanced(
                        old(self).cursor(),
                        *final(dropped) - *old(dropped),
                    )
                    &&& (final(self).cursor() == found.1 || *final(dropped) > usize::MAX
                        - u32::MAX)
                },
            },
    {
        proof {
            use_type_invariant(self.ring);
        }
        loop
            invariant
                N > 0,
                self.drops() == old(self).drops(),
                self.ring() == old(self).ring(),
                *old(dropped) <= *dropped,
                self.cursor() == advanced(old(self).cursor(), *dropped - *old(dropped)),
            decreases usize::MAX - *dropped,
        {
            let newest = self.ring.newest_seq();
            proof {
                lemma_step_closes_in(self.last_seq, newest, N);
                lemma_advanced_twice(old(self).cursor(), *dropped - *old(dropped), 1);
                lemma_advanced_twice(
                    old(self).cursor(),
                    *dropped - *old(dropped),
                    lag(newest, self.last_seq) - N,
                );
            }
            match poll_step(self.last_seq, newest, N) {
                PollStep::Idle => {
                    return (None, newest);
                },
                PollStep::Skip { to, dropped: lost } => {
                    match dropped.checked_add(lost) {
                        Some(sum) => {
                            *dropped = sum;
                            self.last_seq = to;
                        },
                        None => {
                            return (None, newest);
                        },
                    }
                },
                PollStep::Read { seq } => {
                    match self.ring.read_seq_inner(seq) {
                        Some(value) => {
                            self.last_seq = seq;
                            return (Some((seq, value)), newest);
                        },
                        None => {
                            match dropped.checked_add(1) {
                                Some(sum) => {
                                    *dropped = sum;
                                    self.last_seq = seq;
                                },
                                None => {
                                    return (None, newest);
                                },
                            }
                        },
                    }
                },
            }
        }
    }

    /// Drain at most one item (in-order).
    /// Returns true if an item was delivered to the hook.
    ///
    /// The cursor moves on by one for each drop counted and for the item
    /// delivered. When an item is delivered, the hook has been called with
    /// the sequence number at which the cursor then stands, which is never 0.
    pub fn poll_one(&mut self, hook: impl FnOnce(u32, &T)) -> (delivered: bool)
        requires
            forall|seq: u32, v: T| seq != 0 ==> call_requires(hook, (seq, &v)),
        ensures
            final(self).ring() == old(self).ring(),
            old(self).drops() <= final(self).drops(),
            final(self).drops() < usize::MAX ==> final(self).cursor() == advanced(
                old(self).cursor(),
                final(self).drops() - old(self).drops() + if delivered {
                    1int
                } else {
                    0int
                },
            ),
            delivered ==> final(self).cursor() != 0 && exists|v: T|
                call_ensures(hook, (final(self).cursor(), &v), ()),
    {
        let newest = self.ring.newest_seq();
        if newest == 0 || newest == self.last_seq {
            return false;
        }
        let mut dropped: usize = 0;
        let (item, _) = self.seek(&mut dropped);
        self.dropped_accum = tally(self.dropped_accum, dropped);
        match item {
            Some((seq, value)) => {
                hook(seq, &value);
                assert(call_ensures(hook, (self.cursor(), &value), ()));
                true
            },
            None => false,
        }
    }

    /// Drain up to `max` items (in-order).
    /// Hook sees `&T` but it is a reference to a **local copy** inside poll.
    ///
    /// If `max == 0`, this returns immediately with `read = 0`, `dropped = 0`, and
    /// `newest` set to the latest published sequence; the hook is not called,
    /// and nothing is asked of it. The hook is only ever called with a
    /// sequence number other than 0.
    ///
    /// Otherwise the call ends when `max` items are delivered or the cursor
    /// has caught up with `newest`. Whatever the producer does meanwhile, the
    /// cursor moves on by exactly `read + dropped`, and the drops are added
    /// to the consumer's counter, which stops at `usize::MAX`. The hook has
    /// been called `read` times, with sequence numbers in the order in which
    /// the cursor passed them. The call also ends rather than let its own
    /// count of drops overflow; what is left is for the next call.
    pub fn poll_up_to(&mut self, max: usize, mut hook: impl FnMut(u32, &T)) -> (stats: PollStats)
        requires
            max > 0 ==> forall|seq: u32, v: T| seq != 0 ==> call_requires(hook, (seq, &v)),
        ensures
            final(self).ring() == old(self).ring(),
            stats.read <= max,
            max == 0 ==> stats.read == 0 && stats.dropped == 0,
            final(self).cursor() == advanced(old(self).cursor(), stats.read + stats.dropped),
            final(self).drops() == tallied(old(self).drops(), stats.dropped),
            stats.read == max || stats.newest == 0 || final(self).cursor() == stats.newest
                || stats.dropped > usize::MAX - u32::MAX,
            exists|items: Seq<(int, T)>|
                items.len() == stats.read && #[trigger] handed_in_order(
                    hook,
                    old(self).cursor(),
                    stats.read + stats.dropped,
                    items,
                ),
    {
        let ghost mut items: Seq<(int, T)> = Seq::empty();
        let ghost hook_given = hook;
        if max == 0 {
            let stats = PollStats { read: 0, dropped: 0, newest: self.ring.newest_seq() };
            assert(handed_in_order(hook, old(self).cursor(), stats.read + stats.dropped, items));
            return stats;
        }
        let mut newest = self.ring.newest_seq();
        if newest == 0 || newest == self.last_seq {
            let stats = PollStats { read: 0, dropped: 0, newest };
            assert(handed_in_order(hook, old(self).cursor(), stats.read + stats.dropped, items));
            return stats;
        }
        let mut read: usize = 0;
        let mut dropped: usize = 0;

        while read < max
            invariant_except_break
                read <= max,
            invariant
                forall|seq: u32, v: T| seq != 0 ==> call_requires(hook, (seq, &v)),
                self.drops() == old(self).drops(),
                self.ring() == old(self).ring(),
                self.cursor() == advanced(old(self).cursor(), read + dropped),
                hook == hook_given,
                items.len() == read,
                handed_in_order(hook_given, old(self).cursor(), read + dropped, items),
            ensures
                read <= max,
                read == max || self.cursor() == newest || dropped > usize::MAX - u32::MAX,
            decreases max - read,
        {
            let ghost counted = dropped;
            let (item, seen) = self.seek(&mut dropped);
            newest = seen;
            proof {
                lemma_advanced_twice(old(self).cursor(), read + counted, dropped - counted);
                lemma_advanced_twice(old(self).cursor(), read + counted, dropped - counted + 1);
            }
            match item {
                Some((seq, value)) => {
                    hook(seq, &value);
                    read += 1;
                    proof {
                        items = items.push((read + dropped, value));
                    }
                },
                None => {
                    break ;
                },
            }
        }

        self.dropped_accum = tally(self.dropped_accum, dropped);

        let stats = PollStats { read, dropped, newest };
        assert(handed_in_order(hook, old(self).cursor(), stats.read + stats.dropped, items));
        stats
    }

    /// "Give me the newest thing right now" (not in-order).
    /// Returns true if it delivered something.
    ///
    /// This does not advance the consumer cursor. When it returns true, the
    /// hook has been called, with a sequence number other than 0.
    pub fn latest(&self, hook: impl FnOnce(u32, &T)) -> (delivered: bool)
        requires
            forall|seq: u32, v: T| seq != 0 ==> call_requires(hook, (seq, &v)),
        ensures
            delivered ==> exists|seq: u32, v: T| seq != 0 && call_ensures(hook, (seq, &v), ()),
    {
        let newest = self.ring.newest_seq();
        if newest == 0 {
            return false;
        }
        match self.ring.read_seq_inner(newest) {
            Some(v) => {
                hook(newest, &v);
                true
            },
            None => false,
        }
    }

    /// Fast-forward consumer so the *next* `poll_one()` yields the newest item
    /// (i.e. skip backlog).
    ///
    /// This does not modify the dropped counter. The cursor goes where
    /// [`skip_target`] puts it for the newest sequence number loaded.
    pub fn skip_to_latest(&mut self)
        ensures
            final(self).ring() == old(self).ring(),
            final(self).drops() == old(self).drops(),
            exists|newest: u32| final(self).cursor() == caught_up(old(self).cursor(), newest),
    {
        let newest = self.ring.newest_seq();
        self.last_seq = skip_target(self.last_seq, newest);
        assert(self.cursor() == caught_up(old(self).cursor(), newest));
    }

    /// Gives the handle up, so that a consumer can be acquired again.
    pub fn release(self) {
        self.ring.consumer_taken.store(false, Ordering::Release);
    }
}

} // verus!
