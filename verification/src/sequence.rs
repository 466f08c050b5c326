//! Arithmetic on sequence numbers.
//!
//! A sequence number is a `u32`. Zero is reserved for "nothing written"; the
//! numbers handed to writes count up from 1 and wrap past `u32::MAX` back to 1.
//! Everything here is a function of plain integers, so each contract is exact.

use vstd::arithmetic::div_mod::lemma_add_mod_noop_right;
use vstd::arithmetic::div_mod::lemma_fundamental_div_mod;
use vstd::arithmetic::div_mod::lemma_fundamental_div_mod_converse;
use vstd::arithmetic::div_mod::lemma_mod_multiples_vanish;
use vstd::prelude::*;

verus! {

/// The sequence number that a write receives when the counter stood at `prev`:
/// one more than `prev`, except that the step past `u32::MAX` lands on 1.
pub open spec fn following(prev: u32) -> u32 {
    if prev == u32::MAX {
        1
    } else {
        (prev + 1) as u32
    }
}

/// How far `newest` is ahead of `cursor`, counted modulo 2^32.
pub open spec fn lag(newest: u32, cursor: u32) -> nat {
    if newest >= cursor {
        (newest - cursor) as nat
    } else {
        (newest - cursor + 0x1_0000_0000) as nat
    }
}

/// `cursor` moved forward by `steps`, modulo 2^32.
pub open spec fn advanced(cursor: u32, steps: int) -> u32 {
    ((cursor + steps) % 0x1_0000_0000) as u32
}

/// The slot that holds sequence number `seq` in a ring of `capacity` slots.
pub open spec fn slot_of(seq: u32, capacity: usize) -> int {
    (if seq == 0 {
        u32::MAX as int
    } else {
        seq - 1
    }) % (capacity as int)
}

/// Whether a slot whose tag is `tag` holds the value written under `seq`.
/// Sequence number 0 marks a slot that was never written, so no slot holds a
/// value under it.
pub open spec fn carries(tag: u32, seq: u32) -> bool {
    seq != 0 && tag == seq
}

/// The cursor after a catch-up: just before `newest`, or unchanged while
/// nothing has been published.
pub open spec fn caught_up(cursor: u32, newest: u32) -> u32 {
    if newest == 0 {
        cursor
    } else {
        (newest - 1) as u32
    }
}

/// The drop counter after `dropped` more drops; it stops at `usize::MAX`.
pub open spec fn tallied(total: usize, dropped: usize) -> usize {
    if total + dropped > usize::MAX {
        usize::MAX
    } else {
        (total + dropped) as usize
    }
}

/// The sum of the drops of several polls.
pub open spec fn total_of(drops: Seq<usize>) -> nat
    decreases drops.len(),
{
    if drops.len() == 0 {
        0
    } else {
        total_of(drops.drop_last()) + drops.last() as nat
    }
}

/// The drop counter after several polls, which dropped `drops[0]`, `drops[1]`
/// and so on.
pub open spec fn tallied_all(total: usize, drops: Seq<usize>) -> usize
    decreases drops.len(),
{
    if drops.len() == 0 {
        total
    } else {
        tallied(tallied_all(total, drops.drop_last()), drops.last())
    }
}

/// What one round of an in-order poll does, given where the cursor stands and
/// the newest published sequence number.
#[derive(Clone, Copy, Debug, PartialEq, Eq, Structural)]
pub enum PollStep {
    /// The cursor has caught up: nothing to deliver.
    Idle,
    /// The cursor fell more than a ring's length behind. It moves to `to`, and
    /// the `dropped` sequence numbers it passes over are lost.
    Skip { to: u32, dropped: usize },
    /// The next sequence number is still within the ring: try to read `seq`.
    Read { seq: u32 },
}

/// The round that follows from `cursor`, `newest` and the ring's capacity.
///
/// With a lag of more than `capacity` the oldest `lag - capacity` items are
/// gone, and the cursor moves to `newest - capacity`, so that the `capacity`
/// newest items are still to be read.
pub open spec fn planned(cursor: u32, newest: u32, capacity: usize) -> PollStep {
    if newest == cursor {
        PollStep::Idle
    } else if lag(newest, cursor) > capacity {
        PollStep::Skip {
            to: advanced(cursor, lag(newest, cursor) - capacity),
            dropped: (lag(newest, cursor) - capacity) as usize,
        }
    } else {
        PollStep::Read { seq: advanced(cursor, 1) }
    }
}

/// Assigns the sequence number for a write, from the value that the counter
/// held before it was incremented. The result is never 0.
pub fn next_sequence(prev: u32) -> (seq: u32)
    ensures
        seq == following(prev),
        seq != 0,
{
    let bumped = prev.wrapping_add(1);
    if bumped == 0 {
        1
    } else {
        bumped
    }
}

/// Decides, from the tag loaded from the slot for `seq`, whether that slot
/// holds the value written under `seq`.
pub fn tag_carries(tag: u32, seq: u32) -> (yes: bool)
    ensures
        yes == carries(tag, seq),
{
    seq != 0 && tag == seq
}

/// Decides one round of an in-order poll.
pub fn poll_step(cursor: u32, newest: u32, capacity: usize) -> (step: PollStep)
    requires
        capacity > 0,
    ensures
        step == planned(cursor, newest, capacity),
{
    if cursor == newest {
        return PollStep::Idle;
    }
    let behind = newest.wrapping_sub(cursor) as usize;
    let next = cursor.wrapping_add(1);
    if behind > capacity {
        let keep_from = newest.wrapping_sub((capacity - 1) as u32);
        let jump_drops = keep_from.wrapping_sub(next) as usize;
        PollStep::Skip { to: keep_from.wrapping_sub(1), dropped: jump_drops }
    } else {
        PollStep::Read { seq: next }
    }
}

/// Where a catch-up puts the cursor, so that the next in-order read is `newest`.
pub fn skip_target(cursor: u32, newest: u32) -> (target: u32)
    ensures
        target == caught_up(cursor, newest),
{
    if newest != 0 {
        newest.wrapping_sub(1)
    } else {
        cursor
    }
}

/// Adds the drops of one poll to the running total.
pub fn tally(total: usize, dropped: usize) -> (sum: usize)
    ensures
        sum == tallied(total, dropped),
{
    total.saturating_add(dropped)
}

/// No write is ever numbered 0, and the write after `u32::MAX` is numbered 1.
pub proof fn lemma_following_skips_zero(prev: u32)
    ensures
        following(prev) != 0,
        following(u32::MAX) == 1,
        prev < u32::MAX ==> following(prev) == prev + 1,
{
}

/// The drop counter is the running sum of the drops of every poll so far, as
/// long as that sum fits; from there on it stays at `usize::MAX`.
pub proof fn lemma_tally_is_running_sum(total: usize, drops: Seq<usize>)
    ensures
        tallied_all(total, drops) == if total + total_of(drops) <= usize::MAX {
            total + total_of(drops)
        } else {
            usize::MAX as int
        },
    decreases drops.len(),
{
    if drops.len() > 0 {
        lemma_tally_is_running_sum(total, drops.drop_last());
    }
}

/// Moving a cursor on in two stages moves it on by the sum of the two.
pub proof fn lemma_advanced_twice(cursor: u32, first: int, second: int)
    ensures
        advanced(advanced(cursor, first), second) == advanced(cursor, first + second),
        advanced(cursor, 0) == cursor,
{
    lemma_add_mod_noop_right(second, cursor + first, 0x1_0000_0000);
}

/// Two sequence numbers, neither of them 0, share a slot exactly when they
/// differ by a multiple of the capacity.
pub proof fn lemma_same_slot(a: u32, b: u32, capacity: usize)
    requires
        capacity > 0,
        0 < a <= b,
    ensures
        slot_of(a, capacity) == slot_of(b, capacity) <==> (b - a) % (capacity as int) == 0,
{
    let n = capacity as int;
    let x = a - 1;
    let y = b - 1;
    lemma_fundamental_div_mod(x, n);
    lemma_fundamental_div_mod(y, n);
    if x % n == y % n {
        assert(y - x == n * (y / n - x / n)) by (nonlinear_arith)
            requires
                x == n * (x / n) + x % n,
                y == n * (y / n) + y % n,
                x % n == y % n,
        ;
        lemma_fundamental_div_mod_converse(y - x, n, y / n - x / n, 0);
    }
    if (y - x) % n == 0 {
        lemma_fundamental_div_mod(y - x, n);
        let k = (y - x) / n;
        lemma_mod_multiples_vanish(k, x, n);
    }
}

/// A skip leaves the cursor exactly one ring's length behind `newest`, and a
/// read moves it one step closer; either way the lag shrinks.
pub proof fn lemma_step_closes_in(cursor: u32, newest: u32, capacity: usize)
    requires
        capacity > 0,
    ensures
        match planned(cursor, newest, capacity) {
            PollStep::Idle => lag(newest, cursor) == 0,
            PollStep::Skip { to, dropped } => {
                &&& lag(newest, to) == capacity
                &&& dropped == lag(newest, cursor) - capacity
                &&& dropped >= 1
                &&& to == advanced(cursor, dropped as int)
            },
            PollStep::Read { seq } => {
                &&& lag(newest, seq) == lag(newest, cursor) - 1
                &&& seq == advanced(cursor, 1)
            },
        },
{
}

} // verus!
