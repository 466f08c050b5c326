//! A model of the ring while nothing else touches it.
//!
//! [`RingModel`] holds, as plain values, what a ring shares between its two
//! handles, and the functions here say what each operation does to it when it
//! runs from start to end with no other operation in between. The lemmas
//! state what the operations add up to: what a poll delivers after a run of
//! writes, what the latest item is, what a catch-up leaves to read.
//!
//! Everything in this module is ghost code about [`RingModel`]. The
//! executable [`SeqRing`](crate::seq_ring::SeqRing) keeps the same state in
//! atomics and cells that its other handle may change at any moment, so its
//! contracts cannot speak of what that state is at a given moment; they do
//! say that a ring is made as [`RingModel::fresh`] or
//! [`RingModel::with_counters`]. What the two have in common from there on
//! is how they decide: the model applies [`following`], [`slot_of`],
//! [`carries`], [`planned`] and [`caught_up`] to its fields, and the
//! executable ring calls the functions that compute exactly these on the
//! values it has loaded.

use crate::sequence::advanced;
use crate::sequence::carries;
use crate::sequence::caught_up;
use crate::sequence::following;
use crate::sequence::lag;
use crate::sequence::lemma_advanced_twice;
use crate::sequence::lemma_same_slot;
use crate::sequence::lemma_step_closes_in;
use crate::sequence::planned;
use crate::sequence::slot_of;
use crate::sequence::PollStep;
use vstd::arithmetic::div_mod::lemma_mod_bound;
use vstd::arithmetic::div_mod::lemma_small_mod;
use vstd::prelude::*;

verus! {

/// The state of a ring, as plain values: its capacity, the two counters, a
/// tag and a value for each slot, and the two flags that admit one handle of
/// each kind.
#[verifier::ext_equal]
pub struct RingModel<T> {
    pub capacity: usize,
    pub next_seq: u32,
    pub published_seq: u32,
    pub tags: Seq<u32>,
    pub values: Seq<Option<T>>,
    pub producer_live: bool,
    pub consumer_live: bool,
}

/// What an in-order poll of the model leaves behind: where the cursor
/// stands, how many items were read and dropped, the newest sequence number,
/// and the pairs of sequence number and value delivered, in order.
#[verifier::ext_equal]
pub struct Drained<T> {
    pub cursor: u32,
    pub read: nat,
    pub dropped: nat,
    pub newest: u32,
    pub delivered: Seq<(u32, T)>,
}

impl<T> RingModel<T> {
    /// A ring with every slot empty, no handle live, and the counters as given.
    pub open spec fn with_counters(capacity: usize, next_seq: u32, published_seq: u32) -> Self {
        RingModel {
            capacity,
            next_seq,
            published_seq,
            tags: Seq::new(capacity as nat, |i: int| 0u32),
            values: Seq::new(capacity as nat, |i: int| None::<T>),
            producer_live: false,
            consumer_live: false,
        }
    }

    /// A new ring: all counters and tags are zero.
    pub open spec fn fresh(capacity: usize) -> Self {
        Self::with_counters(capacity, 0, 0)
    }

    /// The ring has at least one slot, and a tag and a value for each.
    pub open spec fn well_formed(self) -> bool {
        &&& self.capacity > 0
        &&& self.tags.len() == self.capacity
        &&& self.values.len() == self.capacity
    }

    /// The ring after one write: the value and its sequence number go to the
    /// slot of that number, which then becomes the newest one published.
    pub open spec fn pushed(self, value: T) -> Self {
        let seq = following(self.next_seq);
        let idx = slot_of(seq, self.capacity);
        RingModel {
            next_seq: seq,
            published_seq: seq,
            tags: self.tags.update(idx, seq),
            values: self.values.update(idx, Some(value)),
            ..self
        }
    }

    /// The ring after the writes of `values`, first to last.
    pub open spec fn pushed_all(self, values: Seq<T>) -> Self
        decreases values.len(),
    {
        if values.len() == 0 {
            self
        } else {
            self.pushed_all(values.drop_last()).pushed(values.last())
        }
    }

    /// The value with sequence number `seq`, if its slot still carries that
    /// tag. Nothing is read under sequence number 0.
    pub open spec fn read_at(self, seq: u32) -> Option<T> {
        let idx = slot_of(seq, self.capacity);
        if carries(self.tags[idx], seq) {
            self.values[idx]
        } else {
            None
        }
    }

    /// The newest item and its sequence number, if anything was published.
    pub open spec fn latest(self) -> Option<(u32, T)> {
        if self.published_seq == 0 {
            None
        } else {
            match self.read_at(self.published_seq) {
                Some(value) => Some((self.published_seq, value)),
                None => None,
            }
        }
    }

    /// The ring with its producer handle taken, or `None` if one is live.
    pub open spec fn producer_acquired(self) -> Option<Self> {
        if self.producer_live {
            None
        } else {
            Some(RingModel { producer_live: true, ..self })
        }
    }

    /// The ring with its producer handle given back.
    pub open spec fn producer_released(self) -> Self {
        RingModel { producer_live: false, ..self }
    }

    /// The ring with its consumer handle taken, or `None` if one is live.
    pub open spec fn consumer_acquired(self) -> Option<Self> {
        if self.consumer_live {
            None
        } else {
            Some(RingModel { consumer_live: true, ..self })
        }
    }

    /// The ring with its consumer handle given back.
    pub open spec fn consumer_released(self) -> Self {
        RingModel { consumer_live: false, ..self }
    }

    /// The ring holds what `values.len()` writes from a new ring leave: both
    /// counters stand at that number, and each of the last `capacity`
    /// sequence numbers reads back the value that was written under it.
    pub open spec fn holds_latest_of(self, values: Seq<T>) -> bool {
        &&& self.well_formed()
        &&& values.len() <= u32::MAX
        &&& self.next_seq == values.len()
        &&& self.published_seq == values.len()
        &&& forall|seq: u32|
            0 < seq <= values.len() && values.len() - seq < self.capacity ==> #[trigger] self.read_at(
                seq,
            ) == Some(values[seq - 1])
    }
}

/// A poll that stops where it stands.
pub open spec fn at_rest<T>(ring: RingModel<T>, cursor: u32) -> Drained<T> {
    Drained { cursor, read: 0, dropped: 0, newest: ring.published_seq, delivered: Seq::empty() }
}

/// The rounds of an in-order poll from `cursor`, until `budget` items are
/// read or the cursor has caught up.
pub open spec fn sought<T>(ring: RingModel<T>, cursor: u32, budget: nat) -> Drained<T>
    decreases lag(ring.published_seq, cursor),
    when ring.capacity > 0
{
    if budget == 0 {
        at_rest(ring, cursor)
    } else {
        match planned(cursor, ring.published_seq, ring.capacity) {
            PollStep::Idle => at_rest(ring, cursor),
            PollStep::Skip { to, dropped } => {
                let rest = sought(ring, to, budget);
                Drained { dropped: rest.dropped + dropped as nat, ..rest }
            },
            PollStep::Read { seq } => match ring.read_at(seq) {
                Some(value) => {
                    let rest = sought(ring, seq, (budget - 1) as nat);
                    Drained {
                        read: rest.read + 1,
                        delivered: seq![(seq, value)] + rest.delivered,
                        ..rest
                    }
                },
                None => {
                    let rest = sought(ring, seq, budget);
                    Drained { dropped: rest.dropped + 1, ..rest }
                },
            },
        }
    }
}

/// An in-order poll of at most `max` items from `cursor`.
pub open spec fn polled<T>(ring: RingModel<T>, cursor: u32, max: nat) -> Drained<T> {
    if max == 0 || ring.published_seq == 0 || ring.published_seq == cursor {
        at_rest(ring, cursor)
    } else {
        sought(ring, cursor, max)
    }
}

/// `times` polls for one item each, one after the other from `cursor`: where
/// the last one leaves the cursor, and what they read, dropped and delivered
/// together.
pub open spec fn polled_one_by_one<T>(ring: RingModel<T>, cursor: u32, times: nat) -> Drained<T>
    decreases times,
{
    if times == 0 {
        at_rest(ring, cursor)
    } else {
        let earlier = polled_one_by_one(ring, cursor, (times - 1) as nat);
        let last = polled(ring, earlier.cursor, 1);
        Drained {
            cursor: last.cursor,
            read: earlier.read + last.read,
            dropped: earlier.dropped + last.dropped,
            newest: last.newest,
            delivered: earlier.delivered + last.delivered,
        }
    }
}

/// What [`polled`] keeps to whatever the model ring holds: it reads at most
/// `max` items and delivers as many pairs; the cursor moves on by one for
/// each item read or dropped, and never away from the newest sequence
/// number; no pair is delivered under sequence number 0, and each is closer
/// to the newest sequence number than the one before it; and the poll ends
/// with `max` items read or with the cursor at the newest sequence number,
/// unless nothing was ever published.
pub proof fn lemma_poll_keeps_order<T>(ring: RingModel<T>, cursor: u32, max: nat)
    requires
        ring.capacity > 0,
    ensures
        ({
            let out = polled(ring, cursor, max);
            &&& out.read <= max
            &&& out.delivered.len() == out.read
            &&& out.newest == ring.published_seq
            &&& out.cursor == advanced(cursor, (out.read + out.dropped) as int)
            &&& lag(out.newest, out.cursor) <= lag(out.newest, cursor)
            &&& out.read == max || out.newest == 0 || out.cursor == out.newest
            &&& forall|i: int|
                0 <= i < out.read ==> (#[trigger] out.delivered[i]).0 != 0 && lag(
                    out.newest,
                    out.delivered[i].0,
                ) < lag(out.newest, cursor)
            &&& forall|i: int, j: int|
                0 <= i < j < out.read ==> lag(out.newest, #[trigger] out.delivered[j].0) < lag(
                    out.newest,
                    #[trigger] out.delivered[i].0,
                )
        }),
{
    lemma_sought_keeps_order(ring, cursor, max);
}

proof fn lemma_sought_keeps_order<T>(ring: RingModel<T>, cursor: u32, budget: nat)
    requires
        ring.capacity > 0,
    ensures
        ({
            let out = sought(ring, cursor, budget);
            &&& out.read <= budget
            &&& out.delivered.len() == out.read
            &&& out.newest == ring.published_seq
            &&& out.cursor == advanced(cursor, (out.read + out.dropped) as int)
            &&& lag(out.newest, out.cursor) <= lag(out.newest, cursor)
            &&& out.read == budget || out.cursor == out.newest
            &&& forall|i: int|
                0 <= i < out.read ==> (#[trigger] out.delivered[i]).0 != 0 && lag(
                    out.newest,
                    out.delivered[i].0,
                ) < lag(out.newest, cursor)
            &&& forall|i: int, j: int|
                0 <= i < j < out.read ==> lag(out.newest, #[trigger] out.delivered[j].0) < lag(
                    out.newest,
                    #[trigger] out.delivered[i].0,
                )
        }),
    decreases lag(ring.published_seq, cursor),
{
    let newest = ring.published_seq;
    lemma_step_closes_in(cursor, newest, ring.capacity);
    if budget > 0 {
        match planned(cursor, newest, ring.capacity) {
            PollStep::Idle => {},
            PollStep::Skip { to, dropped } => {
                let rest = sought(ring, to, budget);
                lemma_sought_keeps_order(ring, to, budget);
                lemma_advanced_twice(cursor, dropped as int, (rest.read + rest.dropped) as int);
            },
            PollStep::Read { seq } => match ring.read_at(seq) {
                Some(value) => {
                    let rest = sought(ring, seq, (budget - 1) as nat);
                    lemma_sought_keeps_order(ring, seq, (budget - 1) as nat);
                    lemma_advanced_twice(cursor, 1, (rest.read + rest.dropped) as int);
                    let out = sought(ring, cursor, budget);
                    assert(out.delivered[0] == (seq, value));
                    assert forall|i: int| 1 <= i < out.read implies out.delivered[i]
                        == rest.delivered[i - 1] by {}
                },
                None => {
                    let rest = sought(ring, seq, budget);
                    lemma_sought_keeps_order(ring, seq, budget);
                    lemma_advanced_twice(cursor, 1, (rest.read + rest.dropped) as int);
                },
            },
        }
    }
}

/// In the model, writes into a new ring leave the last `capacity` of them
/// readable, each under its own sequence number.
pub proof fn lemma_pushes_keep_latest<T>(capacity: usize, values: Seq<T>)
    requires
        capacity > 0,
        values.len() <= u32::MAX,
    ensures
        RingModel::fresh(capacity).pushed_all(values).capacity == capacity,
        RingModel::fresh(capacity).pushed_all(values).holds_latest_of(values),
    decreases values.len(),
{
    if values.len() > 0 {
        let earlier = values.drop_last();
        let before = RingModel::<T>::fresh(capacity).pushed_all(earlier);
        let after = before.pushed(values.last());
        lemma_pushes_keep_latest(capacity, earlier);
        let n = values.len();
        let newest = n as u32;
        assert forall|seq: u32| 0 < seq <= n && n - seq < capacity implies #[trigger] after.read_at(
            seq,
        ) == Some(values[seq - 1]) by {
            if seq < newest {
                lemma_same_slot(seq, newest, capacity);
                lemma_small_mod((newest - seq) as nat, capacity as nat);
                assert(before.read_at(seq) == Some(earlier[seq - 1]));
            }
        }
    }
}

/// In a model ring that holds the latest of `values`, [`sought`] from a
/// cursor within the last `capacity` items reads them one after the other
/// and drops nothing.
pub proof fn lemma_reads_what_is_kept<T>(
    ring: RingModel<T>,
    values: Seq<T>,
    cursor: u32,
    budget: nat,
)
    requires
        ring.holds_latest_of(values),
        cursor <= values.len(),
        values.len() - cursor <= ring.capacity,
    ensures
        ({
            let left = (values.len() - cursor) as nat;
            let taken = if budget <= left {
                budget
            } else {
                left
            };
            let out = sought(ring, cursor, budget);
            &&& out.cursor == cursor + taken
            &&& out.read == taken
            &&& out.dropped == 0
            &&& out.newest == values.len()
            &&& out.delivered.len() == taken
            &&& forall|i: int|
                0 <= i < taken ==> out.delivered[i] == ((cursor + i + 1) as u32, values[cursor + i])
        }),
    decreases values.len() - cursor,
{
    if budget > 0 && cursor < values.len() {
        let seq = (cursor + 1) as u32;
        lemma_step_closes_in(cursor, ring.published_seq, ring.capacity);
        assert(ring.read_at(seq) == Some(values[seq - 1]));
        lemma_reads_what_is_kept(ring, values, seq, (budget - 1) as nat);
    }
}

/// In the model, after `n` writes into a new ring of `capacity` slots, a
/// poll of up to `n` items delivers the last `min(n, capacity)` of them,
/// oldest first and each with its sequence number, reports the others as
/// dropped, and reports `n` as the newest sequence number.
pub proof fn lemma_poll_after_pushes<T>(capacity: usize, values: Seq<T>)
    requires
        capacity > 0,
        values.len() <= u32::MAX,
    ensures
        ({
            let n = values.len();
            let kept = if n <= capacity {
                n
            } else {
                capacity as nat
            };
            let out = polled(RingModel::fresh(capacity).pushed_all(values), 0, n);
            &&& out.read == kept
            &&& out.dropped == n - kept
            &&& out.newest == n
            &&& out.cursor == n
            &&& out.delivered.len() == kept
            &&& forall|i: int|
                0 <= i < kept ==> out.delivered[i] == ((n - kept + i + 1) as u32, values[n - kept
                    + i])
        }),
{
    let n = values.len();
    let ring = RingModel::fresh(capacity).pushed_all(values);
    lemma_pushes_keep_latest(capacity, values);
    if n > 0 {
        if n <= capacity {
            lemma_reads_what_is_kept(ring, values, 0, n);
        } else {
            let to = (n - capacity) as u32;
            assert(planned(0, ring.published_seq, capacity) == PollStep::Skip {
                to,
                dropped: (n - capacity) as usize,
            });
            lemma_reads_what_is_kept(ring, values, to, n);
        }
    }
}

/// In the model, after `k` writes into a new ring that has room for all of
/// them, a poll for one item with the cursor at `j < k` delivers write
/// `j + 1` under sequence number `j + 1`, drops nothing, and leaves the
/// cursor at `j + 1`.
pub proof fn lemma_poll_next_item<T>(capacity: usize, values: Seq<T>, j: nat)
    requires
        capacity > 0,
        values.len() <= capacity,
        values.len() <= u32::MAX,
        j < values.len(),
    ensures
        ({
            let out = polled(RingModel::fresh(capacity).pushed_all(values), j as u32, 1);
            &&& out.read == 1
            &&& out.dropped == 0
            &&& out.cursor == j + 1
            &&& out.delivered == seq![((j + 1) as u32, values[j as int])]
        }),
{
    let ring = RingModel::fresh(capacity).pushed_all(values);
    lemma_pushes_keep_latest(capacity, values);
    lemma_reads_what_is_kept(ring, values, j as u32, 1);
}

/// In the model, after `k` writes into a new ring that has room for all of
/// them, `k` polls for one item each deliver the `k` values in the order
/// written, under the sequence numbers 1 to `k`, and drop nothing.
pub proof fn lemma_poll_one_at_a_time<T>(capacity: usize, values: Seq<T>)
    requires
        capacity > 0,
        values.len() <= capacity,
        values.len() <= u32::MAX,
    ensures
        ({
            let k = values.len();
            let out = polled_one_by_one(RingModel::fresh(capacity).pushed_all(values), 0, k);
            &&& out.read == k
            &&& out.dropped == 0
            &&& out.cursor == k
            &&& out.delivered == Seq::new(k, |i: int| ((i + 1) as u32, values[i]))
        }),
{
    lemma_polls_one_by_one(capacity, values, values.len());
}

proof fn lemma_polls_one_by_one<T>(capacity: usize, values: Seq<T>, times: nat)
    requires
        capacity > 0,
        values.len() <= capacity,
        values.len() <= u32::MAX,
        times <= values.len(),
    ensures
        ({
            let out = polled_one_by_one(RingModel::fresh(capacity).pushed_all(values), 0, times);
            &&& out.read == times
            &&& out.dropped == 0
            &&& out.cursor == times
            &&& out.delivered == Seq::new(times, |i: int| ((i + 1) as u32, values[i]))
        }),
    decreases times,
{
    if times > 0 {
        lemma_polls_one_by_one(capacity, values, (times - 1) as nat);
        lemma_poll_next_item(capacity, values, (times - 1) as nat);
    }
}

/// In the model, a poll for no items reads and drops nothing, leaves the
/// cursor where it is, delivers nothing, and reports the newest published
/// sequence number.
pub proof fn lemma_poll_nothing<T>(ring: RingModel<T>, cursor: u32)
    ensures
        polled(ring, cursor, 0) == (Drained::<T> {
            cursor,
            read: 0,
            dropped: 0,
            newest: ring.published_seq,
            delivered: Seq::empty(),
        }),
{
}

/// In the model, a write touches one slot and the two counters, and nothing
/// else: the slot of its sequence number gets the value and that number as
/// its tag, both counters move to that number, which is never 0, and every
/// other slot and both flags stay as they are.
pub proof fn lemma_push_touches_one_slot<T>(ring: RingModel<T>, value: T)
    requires
        ring.well_formed(),
    ensures
        ({
            let seq = following(ring.next_seq);
            let idx = slot_of(seq, ring.capacity);
            let after = ring.pushed(value);
            &&& after.well_formed()
            &&& after.capacity == ring.capacity
            &&& 0 <= idx < ring.capacity
            &&& seq != 0
            &&& after.next_seq == seq
            &&& after.published_seq == seq
            &&& after.tags[idx] == seq
            &&& after.values[idx] == Some(value)
            &&& forall|i: int|
                0 <= i < ring.capacity && i != idx ==> after.tags[i] == ring.tags[i]
                    && after.values[i] == ring.values[i]
            &&& after.producer_live == ring.producer_live
            &&& after.consumer_live == ring.consumer_live
        }),
{
    let seq = following(ring.next_seq);
    lemma_mod_bound(seq - 1, ring.capacity as int);
}

/// In the model, a new ring has no latest item. After a write, the latest
/// item is the value just written, under the sequence number that the write
/// was given.
pub proof fn lemma_latest_is_last_pushed<T>(ring: RingModel<T>, value: T)
    requires
        ring.well_formed(),
    ensures
        RingModel::<T>::fresh(ring.capacity).latest() is None,
        ring.pushed(value).published_seq == following(ring.next_seq),
        ring.pushed(value).published_seq != 0,
        ring.pushed(value).latest() == Some((following(ring.next_seq), value)),
{
    lemma_push_touches_one_slot(ring, value);
}

/// In the model, after a write, a catch-up followed by a poll for one item
/// delivers the value just written and nothing else, wherever the cursor
/// stood before, and counts no drop.
pub proof fn lemma_skip_then_poll<T>(ring: RingModel<T>, value: T, cursor: u32)
    requires
        ring.well_formed(),
    ensures
        ({
            let now = ring.pushed(value);
            let out = polled(now, caught_up(cursor, now.published_seq), 1);
            &&& out.read == 1
            &&& out.dropped == 0
            &&& out.cursor == now.published_seq
            &&& out.delivered == seq![(now.published_seq, value)]
        }),
{
    let now = ring.pushed(value);
    let newest = now.published_seq;
    lemma_push_touches_one_slot(ring, value);
    lemma_step_closes_in(caught_up(cursor, newest), newest, now.capacity);
    assert(now.read_at(newest) == Some(value));
    assert(sought(now, newest, 0) == at_rest(now, newest));
}

/// In the model, while a handle of one kind is live, acquiring another of
/// that kind fails and changes nothing; once the handle is released,
/// acquiring succeeds again. Neither touches the counters, the tags or the
/// values.
pub proof fn lemma_one_handle_of_each_kind<T>(ring: RingModel<T>)
    ensures
        ring.producer_acquired() is None <==> ring.producer_live,
        ring.consumer_acquired() is None <==> ring.consumer_live,
        ring.producer_acquired() matches Some(held) ==> {
            &&& held == (RingModel { producer_live: true, ..ring })
            &&& held.producer_acquired() is None
            &&& held.producer_released().producer_acquired() is Some
        },
        ring.consumer_acquired() matches Some(held) ==> {
            &&& held == (RingModel { consumer_live: true, ..ring })
            &&& held.consumer_acquired() is None
            &&& held.consumer_released().consumer_acquired() is Some
        },
{
}

} // verus!
