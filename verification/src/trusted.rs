//! What the ring assumes of the code it is built on.
//!
//! The counters, tags and flags of a ring are `portable_atomic` atomics. Verus
//! reads none of that crate, so every item here is believed, not proved. An
//! atomic may be written by another context at any moment: nothing is claimed
//! of the value that a load, a swap or a fetch-add returns, and the ring's own
//! contracts hold for every value that may come back. What is stated of the
//! atomics is which memory orderings each operation accepts without
//! panicking, and the value that each one was created with.

use core::sync::atomic::Ordering;
use portable_atomic::AtomicBool;
use portable_atomic::AtomicU32;
use vstd::prelude::*;

verus! {

/// `portable_atomic::AtomicU32`, opaque to the verifier.
#[verifier::external_type_specification]
#[verifier::external_body]
pub struct ExAtomicU32(AtomicU32);

/// `portable_atomic::AtomicBool`, opaque to the verifier.
#[verifier::external_type_specification]
#[verifier::external_body]
pub struct ExAtomicBool(AtomicBool);

/// The value that an `AtomicU32` was created with. It says nothing of what
/// the atomic holds at any later time.
pub uninterp spec fn u32_made_with(atomic: AtomicU32) -> u32;

/// The value that an `AtomicBool` was created with. It says nothing of what
/// the flag holds at any later time.
pub uninterp spec fn flag_made_with(atomic: AtomicBool) -> bool;

/// `AtomicU32::new` builds an atomic that starts out holding `v`.
pub assume_specification[ AtomicU32::new ](v: u32) -> (atomic: AtomicU32)
    ensures
        u32_made_with(atomic) == v,
;

/// `AtomicU32::load` panics on a `Release` or `AcqRel` ordering, which the
/// precondition leaves out. Nothing is claimed of the value loaded.
pub assume_specification[ AtomicU32::load ](atomic: &AtomicU32, order: Ordering) -> u32
    requires
        !(order is Release),
        !(order is AcqRel),
;

/// `AtomicU32::store` panics on an `Acquire` or `AcqRel` ordering, which the
/// precondition leaves out.
pub assume_specification[ AtomicU32::store ](atomic: &AtomicU32, val: u32, order: Ordering)
    requires
        !(order is Acquire),
        !(order is AcqRel),
;

/// `AtomicU32::fetch_add` adds with wrap-around and takes every ordering.
/// Nothing is claimed of the previous value that it returns.
pub assume_specification[ AtomicU32::fetch_add ](
    atomic: &AtomicU32,
    val: u32,
    order: Ordering,
) -> u32;

/// `AtomicBool::new` builds a flag that starts out holding `v`.
pub assume_specification[ AtomicBool::new ](v: bool) -> (atomic: AtomicBool)
    ensures
        flag_made_with(atomic) == v,
;

/// `AtomicBool::swap` takes every ordering. Nothing is claimed of the
/// previous value that it returns.
pub assume_specification[ AtomicBool::swap ](atomic: &AtomicBool, val: bool, order: Ordering) -> bool;

/// `AtomicBool::store` panics on an `Acquire` or `AcqRel` ordering, which the
/// precondition leaves out.
pub assume_specification[ AtomicBool::store ](atomic: &AtomicBool, val: bool, order: Ordering)
    requires
        !(order is Acquire),
        !(order is AcqRel),
;

/// `core::array::from_fn` calls `f` once for each index of the array, in
/// order, and puts each result at its index.
pub assume_specification<T, const N: usize, F>[ core::array::from_fn::<T, N, F> ](f: F) -> (made:
    [T; N]) where F: FnMut(usize) -> T
    requires
        forall|i: usize| i < N ==> call_requires(f, (i,)),
    ensures
        forall|i: usize| i < N ==> call_ensures(f, (i,), #[trigger] made[i as int]),
;

} // verus!
