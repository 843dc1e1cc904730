//! Slots of the ring buffer: the `k`-th arrival (counting from zero) occupies
//! slot `k mod size`.

use vstd::prelude::*;
use vstd::arithmetic::div_mod::lemma_add_mod_noop;
use vstd::arithmetic::div_mod::lemma_mod_bound;
use vstd::arithmetic::div_mod::lemma_mod_equivalence;
use vstd::arithmetic::div_mod::lemma_mod_self_0;
use vstd::arithmetic::div_mod::lemma_small_mod;

verus! {

/// The slot that arrival number `arrival` occupies in a ring of `size` slots.
pub(crate) closed spec fn slot(arrival: int, size: int) -> int {
    arrival % size
}

/// The slot is the remainder of the arrival number by the size of the ring.
pub(crate) proof fn lemma_slot_is_remainder(arrival: int, size: int)
    ensures
        slot(arrival, size) == arrival % size,
{
}

/// A slot is a position in the ring.
pub(crate) proof fn lemma_slot_in_ring(arrival: int, size: int)
    requires
        size >= 1,
    ensures
        0 <= slot(arrival, size) < size,
{
    lemma_mod_bound(arrival, size);
}

/// The first arrival occupies slot 0.
pub(crate) proof fn lemma_slot_of_first(size: int)
    requires
        size >= 1,
    ensures
        slot(0, size) == 0,
{
    lemma_small_mod(0, size as nat);
}

/// Slots are handed out cyclically: the slot after `s` is `(s + 1) mod size`.
pub(crate) proof fn lemma_slot_of_next(arrival: int, size: int)
    requires
        size >= 1,
    ensures
        slot(arrival + 1, size) == (slot(arrival, size) + 1) % size,
{
    lemma_add_mod_noop(arrival, 1, size);
    lemma_mod_bound(arrival, size);
    if size == 1 {
        lemma_small_mod(0, 1);
    } else {
        lemma_small_mod(1, size as nat);
    }
}

/// Among the `size` arrivals before arrival number `count`, the only one
/// whose slot arrival `count` reuses is the oldest, `count - size`.
pub(crate) proof fn lemma_slot_is_reused_once(earlier: int, count: int, size: int)
    requires
        size >= 1,
        0 <= earlier < count,
        count - size <= earlier,
    ensures
        slot(earlier, size) == slot(count, size) <==> earlier == count - size,
{
    // The two slots agree exactly when `size` divides the gap between the
    // arrivals, and the gap is at least 1 and at most `size`.
    let gap = count - earlier;
    lemma_mod_equivalence(count, earlier, size);
    if gap == size {
        lemma_mod_self_0(size);
    } else {
        lemma_small_mod(gap as nat, size as nat);
    }
}

} // verus!
