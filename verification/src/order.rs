//! The order on elements, as the element type's own comparison operators
//! decide it.
//!
//! Nothing here compares values by any other means than `PartialOrd`: an
//! element type may order by a derived key, and two values that rank equal
//! need not be the same value.

use vstd::prelude::*;
use vstd::std_specs::cmp::PartialOrdIs;
use vstd::std_specs::cmp::PartialOrdSpec;

verus! {

/// `a <= b`, by the element type's comparison.
pub open spec fn at_most<F: PartialOrd>(a: F, b: F) -> bool {
    a.is_le(&b)
}

/// `a >= b`, by the element type's comparison.
pub open spec fn at_least<F: PartialOrd>(a: F, b: F) -> bool {
    a.is_ge(&b)
}

/// `a` ranks strictly below `b`: `a <= b` holds and `b <= a` does not.
pub open spec fn below<F: PartialOrd>(a: F, b: F) -> bool {
    at_most(a, b) && !at_most(b, a)
}

/// The comparisons behave as a total preorder on the values held in `s`:
/// the operators compute what their specification says, any two values are
/// comparable, `>=` is `<=` with the sides exchanged, and `<=` is
/// transitive. Values that are not in `s` are left unconstrained, so a type
/// with incomparable values qualifies as long as none of them is in `s`.
pub open spec fn consistently_ordered<F: PartialOrd>(s: Seq<F>) -> bool {
    &&& F::obeys_partial_cmp_spec()
    &&& forall|i: int, j: int|
        #![trigger at_most(s[i], s[j])]
        0 <= i < s.len() && 0 <= j < s.len() ==> at_most(s[i], s[j]) || at_most(s[j], s[i])
    &&& forall|i: int, j: int|
        #![trigger at_least(s[i], s[j])]
        0 <= i < s.len() && 0 <= j < s.len() ==> (at_least(s[i], s[j]) <==> at_most(s[j], s[i]))
    &&& forall|i: int, j: int, k: int|
        #![trigger at_most(s[i], s[j]), at_most(s[j], s[k])]
        0 <= i < s.len() && 0 <= j < s.len() && 0 <= k < s.len() && at_most(s[i], s[j])
            && at_most(s[j], s[k]) ==> at_most(s[i], s[k])
}

/// The comparisons behave as a total preorder on all of `F`.
pub open spec fn totally_ordered<F: PartialOrd>() -> bool {
    &&& F::obeys_partial_cmp_spec()
    &&& forall|a: F, b: F| #![trigger at_most(a, b)] at_most(a, b) || at_most(b, a)
    &&& forall|a: F, b: F| #![trigger at_least(a, b)] at_least(a, b) <==> at_most(b, a)
    &&& forall|a: F, b: F, c: F|
        #![trigger at_most(a, b), at_most(b, c)]
        at_most(a, b) && at_most(b, c) ==> at_most(a, c)
}

/// Where the comparisons are a total preorder on the whole type, every
/// sequence of its values is consistently ordered.
pub proof fn lemma_total_order_is_consistent<F: PartialOrd>(s: Seq<F>)
    requires
        totally_ordered::<F>(),
    ensures
        consistently_ordered(s),
{
}

/// Every value of a consistently ordered sequence is at most itself.
pub proof fn lemma_consistent_is_reflexive<F: PartialOrd>(s: Seq<F>, i: int)
    requires
        consistently_ordered(s),
        0 <= i < s.len(),
    ensures
        at_most(s[i], s[i]),
{
}

/// A stretch of a consistently ordered sequence is consistently ordered.
pub proof fn lemma_consistent_subrange<F: PartialOrd>(s: Seq<F>, from: int, to: int)
    requires
        consistently_ordered(s),
        0 <= from <= to <= s.len(),
    ensures
        consistently_ordered(s.subrange(from, to)),
{
}

} // verus!
