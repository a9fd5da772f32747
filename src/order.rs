//! What it means for a comparison predicate to define a priority order.
use vstd::multiset::Multiset;
use vstd::prelude::*;

verus! {

/// `f` accepts every pair of arguments.
pub open spec fn callable_on_all<T, F: Fn(&T, &T) -> bool>(f: F) -> bool {
    forall|a: T, b: T| #[trigger] f.requires((&a, &b))
}

/// Every result that a call of `f` on `(a, b)` can return is `rel(a, b)`:
/// `f` computes the relation `rel`.
pub open spec fn computes<T, F: Fn(&T, &T) -> bool>(f: F, rel: spec_fn(T, T) -> bool) -> bool {
    forall|a: T, b: T, r: bool| #[trigger] f.ensures((&a, &b), r) ==> r == rel(a, b)
}

/// `rel` is a strict weak order: irreflexive, transitive, and such that
/// incomparability (neither is strictly before the other) is transitive.
pub open spec fn is_strict_weak_order<T>(rel: spec_fn(T, T) -> bool) -> bool {
    &&& forall|a: T| !#[trigger] rel(a, a)
    &&& forall|a: T, b: T, c: T| #[trigger] rel(a, b) && #[trigger] rel(b, c) ==> rel(a, c)
    &&& forall|a: T, b: T, c: T|
        !#[trigger] rel(a, b) && !#[trigger] rel(b, c) ==> !rel(a, c)
}

/// `f` computes `rel`, and `rel` is a strict weak order: `rel(a, b)` reads
/// "`a` has strictly higher priority than `b`".
pub open spec fn is_priority_order<T, F: Fn(&T, &T) -> bool>(
    f: F,
    rel: spec_fn(T, T) -> bool,
) -> bool {
    computes(f, rel) && is_strict_weak_order(rel)
}

/// `x` has the highest priority in `m`: nothing in `m` is strictly before it.
pub open spec fn is_top<T>(m: Multiset<T>, x: T, rel: spec_fn(T, T) -> bool) -> bool {
    forall|y: T| #[trigger] m.contains(y) ==> !rel(y, x)
}

/// The sequence lists its elements from highest to lowest priority: no later
/// element is strictly before an earlier one.
pub open spec fn is_sorted_by<T>(s: Seq<T>, rel: spec_fn(T, T) -> bool) -> bool {
    forall|i: int, j: int| 0 <= i < j < s.len() ==> !rel(#[trigger] s[j], #[trigger] s[i])
}

} // verus!
