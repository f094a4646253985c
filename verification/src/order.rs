//! The order on heap elements, as contracts see it.
//!
//! Heaps compare their elements through `Ord`. What is proved of a heap
//! holds for every element type whose comparison is a lawful total order,
//! which is what `total_order` demands.

use vstd::prelude::*;
use vstd::multiset::Multiset;
use vstd::std_specs::cmp::PartialOrdIs;

verus! {

/// The comparison of `T` is a lawful total order: every call of `<`, `<=`
/// and their siblings agrees with the order that contracts speak of, and
/// that order is total, antisymmetric up to equivalence and transitive.
pub open spec fn total_order<T: Ord>() -> bool {
    vstd::laws_cmp::obeys_cmp::<T>()
}

/// `a` comes before `b` in the order, or is equivalent to it.
pub open spec fn le<T: Ord>(a: T, b: T) -> bool {
    a.is_le(&b)
}

/// `a` comes strictly before `b` in the order.
pub open spec fn lt<T: Ord>(a: T, b: T) -> bool {
    a.is_lt(&b)
}

/// `x` is no larger than any element of `m`.
pub open spec fn lower_bound<T: Ord>(x: T, m: Multiset<T>) -> bool {
    forall|y: T| m.contains(y) ==> le(x, y)
}

/// `x` is an element of `m` that is no larger than any other.
pub open spec fn is_minimum<T: Ord>(x: T, m: Multiset<T>) -> bool {
    m.contains(x) && lower_bound(x, m)
}

/// The elements of `s` are in non-decreasing order.
pub open spec fn sorted<T: Ord>(s: Seq<T>) -> bool {
    forall|i: int, j: int| 0 <= i <= j < s.len() ==> le(s[i], s[j])
}

/// Every element is equivalent to itself.
pub proof fn lemma_le_reflexive<T: Ord>(a: T)
    requires
        total_order::<T>(),
    ensures
        le(a, a),
{
    reveal(vstd::laws_cmp::obeys_cmp_ord);
    reveal(vstd::laws_cmp::obeys_partial_cmp_spec_properties);
}

/// Any two elements are comparable, and `a < b` says exactly that `b <= a`
/// fails.
pub proof fn lemma_le_total<T: Ord>(a: T, b: T)
    requires
        total_order::<T>(),
    ensures
        le(a, b) || le(b, a),
        lt(a, b) <==> !le(b, a),
        lt(a, b) ==> le(a, b),
{
    reveal(vstd::laws_cmp::obeys_cmp_ord);
    reveal(vstd::laws_cmp::obeys_cmp_partial_ord);
    reveal(vstd::laws_cmp::obeys_partial_cmp_spec_properties);
    reveal(vstd::laws_eq::obeys_eq_spec_properties);
}

/// The order is transitive.
pub proof fn lemma_le_transitive<T: Ord>(a: T, b: T, c: T)
    requires
        total_order::<T>(),
        le(a, b),
        le(b, c),
    ensures
        le(a, c),
{
    reveal(vstd::laws_cmp::obeys_cmp_ord);
    reveal(vstd::laws_cmp::obeys_cmp_partial_ord);
    reveal(vstd::laws_cmp::obeys_partial_cmp_spec_properties);
    reveal(vstd::laws_eq::obeys_eq_spec_properties);
}

/// Whether `a` comes strictly before `b`.
pub fn less<T: Ord>(a: &T, b: &T) -> (r: bool)
    requires
        total_order::<T>(),
    ensures
        r == lt(*a, *b),
        r == !le(*b, *a),
{
    proof {
        lemma_le_total(*a, *b);
        reveal(vstd::laws_cmp::obeys_cmp_partial_ord);
    }
    *a < *b
}

/// Whether `a` comes before `b` or is equivalent to it.
pub fn less_eq<T: Ord>(a: &T, b: &T) -> (r: bool)
    requires
        total_order::<T>(),
    ensures
        r == le(*a, *b),
        r == !lt(*b, *a),
{
    proof {
        lemma_le_total(*b, *a);
        reveal(vstd::laws_cmp::obeys_cmp_partial_ord);
    }
    *a <= *b
}

} // verus!
