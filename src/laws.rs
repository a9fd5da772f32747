//! Facts about whole sequences of heap operations, stated over the contents
//! that `Hearp::insert` and `Hearp::pop` promise.
use vstd::multiset::Multiset;
use vstd::prelude::*;

use crate::order::{is_sorted_by, is_strict_weak_order, is_top};

verus! {

broadcast use vstd::seq_lib::group_to_multiset_ensures, vstd::multiset::group_multiset_axioms;

/// What one `pop` on a heap holding `before` promises when it returns `x`
/// and leaves `after`, for an order `rel` that its predicate computes.
pub open spec fn is_pop_step<T>(
    before: Multiset<T>,
    after: Multiset<T>,
    x: T,
    rel: spec_fn(T, T) -> bool,
) -> bool {
    &&& before.contains(x)
    &&& after == before.remove(x)
    &&& is_top(before, x, rel)
}

/// `states[i + 1]` is what `pop` left of `states[i]` when it returned `out[i]`,
/// and the last state is empty.
pub open spec fn is_drain<T>(
    states: Seq<Multiset<T>>,
    out: Seq<T>,
    rel: spec_fn(T, T) -> bool,
) -> bool {
    &&& states.len() == out.len() + 1
    &&& states.last().len() == 0
    &&& forall|i: int|
        0 <= i < out.len() ==> #[trigger] is_pop_step(states[i], states[i + 1], out[i], rel)
}

/// `states[i + 1]` is what `insert` made of `states[i]` when given `ins[i]`,
/// starting from an empty heap.
pub open spec fn is_fill<T>(states: Seq<Multiset<T>>, ins: Seq<T>) -> bool {
    &&& states.len() == ins.len() + 1
    &&& states[0].len() == 0
    &&& forall|i: int| 0 <= i < ins.len() ==> #[trigger] states[i + 1] == states[i].insert(ins[i])
}

/// Popping until the heap is empty yields its elements from highest to
/// lowest priority, each as often as the heap held it: as many elements as
/// the heap held at the start.
pub proof fn lemma_drain_sorted<T>(
    states: Seq<Multiset<T>>,
    out: Seq<T>,
    rel: spec_fn(T, T) -> bool,
)
    requires
        is_strict_weak_order(rel),
        is_drain(states, out, rel),
    ensures
        is_sorted_by(out, rel),
        out.to_multiset() == states[0],
        out.len() == states[0].len(),
    decreases out.len(),
{
    broadcast use vstd::multiset::lemma_multiset_empty_len;

    if out.len() == 0 {
        assert(out.to_multiset() =~= Multiset::<T>::empty());
    } else {
        let rest_states = states.drop_first();
        let rest = out.drop_first();
        assert forall|i: int| 0 <= i < rest.len() implies #[trigger] is_pop_step(
            rest_states[i],
            rest_states[i + 1],
            rest[i],
            rel,
        ) by {
            let k = i + 1;
            assert(is_pop_step(states[k], states[k + 1], out[k], rel));
            assert(rest_states[i] == states[k] && rest_states[i + 1] == states[k + 1]);
        }
        lemma_drain_sorted(rest_states, rest, rel);
        assert(is_pop_step(states[0], states[1], out[0], rel));
        assert(out =~= rest.insert(0, out[0]));
        assert(states[0] =~= states[1].insert(out[0]));
        assert forall|i: int, j: int| 0 <= i < j < out.len() implies !rel(
            #[trigger] out[j],
            #[trigger] out[i],
        ) by {
            if i > 0 {
                assert(rest[j - 1] == out[j] && rest[i - 1] == out[i]);
            } else {
                assert(out.contains(out[j]));
                assert(states[0].contains(out[j]));
            }
        }
    }
}

/// Inserting the elements of `ins` one by one into an empty heap leaves it
/// holding exactly those elements, as many as were inserted.
pub proof fn lemma_fill_holds_all<T>(states: Seq<Multiset<T>>, ins: Seq<T>)
    requires
        is_fill(states, ins),
    ensures
        states.last() == ins.to_multiset(),
        states.last().len() == ins.len(),
    decreases ins.len(),
{
    broadcast use vstd::multiset::lemma_multiset_empty_len;

    if ins.len() == 0 {
        assert(ins.to_multiset() =~= Multiset::<T>::empty());
    } else {
        let n = ins.len() - 1;
        let prev_states = states.drop_last();
        let prev = ins.drop_last();
        assert forall|i: int| 0 <= i < prev.len() implies #[trigger] prev_states[i + 1]
            == prev_states[i].insert(prev[i]) by {
            assert(states[i + 1] == states[i].insert(ins[i]));
        }
        lemma_fill_holds_all(prev_states, prev);
        assert(ins =~= prev.push(ins[n]));
        assert(states[n + 1] == states[n].insert(ins[n]));
    }
}

/// Inserting the elements of a sequence into an empty heap and then popping
/// until it is empty yields the same elements, each as often, from highest to
/// lowest priority.
pub proof fn lemma_sorted_extraction<T>(
    filled: Seq<Multiset<T>>,
    ins: Seq<T>,
    drained: Seq<Multiset<T>>,
    out: Seq<T>,
    rel: spec_fn(T, T) -> bool,
)
    requires
        is_strict_weak_order(rel),
        is_fill(filled, ins),
        drained.len() > 0,
        drained[0] == filled.last(),
        is_drain(drained, out, rel),
    ensures
        out.to_multiset() == ins.to_multiset(),
        out.len() == ins.len(),
        is_sorted_by(out, rel),
{
    lemma_fill_holds_all(filled, ins);
    lemma_drain_sorted(drained, out, rel);
}

/// Two elements that neither is strictly before the other are equal: `rel`
/// orders its elements totally.
pub open spec fn is_total<T>(rel: spec_fn(T, T) -> bool) -> bool {
    forall|a: T, b: T| !#[trigger] rel(a, b) && !#[trigger] rel(b, a) ==> a == b
}

/// Under a total order, a sequence is pinned down by its elements and being
/// sorted: two sorted sequences with the same elements are equal.
pub proof fn lemma_sorted_is_unique<T>(a: Seq<T>, b: Seq<T>, rel: spec_fn(T, T) -> bool)
    requires
        is_strict_weak_order(rel),
        is_total(rel),
        is_sorted_by(a, rel),
        is_sorted_by(b, rel),
        a.to_multiset() == b.to_multiset(),
    ensures
        a == b,
    decreases a.len(),
{
    vstd::seq_lib::to_multiset_len(a);
    vstd::seq_lib::to_multiset_len(b);
    if a.len() == 0 {
        assert(b.len() == 0);
        assert(a =~= b);
    } else {
        assert(b.len() == a.len());
        assert(a.contains(a[0]));
        assert(b.to_multiset().count(a[0]) > 0);
        let j = choose|j: int| 0 <= j < b.len() && b[j] == a[0];
        assert(b.contains(b[0]));
        assert(a.to_multiset().count(b[0]) > 0);
        let i = choose|i: int| 0 <= i < a.len() && a[i] == b[0];
        if j > 0 {
            assert(!rel(b[j], b[0]));
        }
        if i > 0 {
            assert(!rel(a[i], a[0]));
        }
        assert(a[0] == b[0]);
        assert(a.remove(0) =~= a.drop_first());
        assert(b.remove(0) =~= b.drop_first());
        let (ra, rb) = (a.drop_first(), b.drop_first());
        assert(ra.to_multiset() == rb.to_multiset());
        assert forall|x: int, y: int| 0 <= x < y < ra.len() implies !rel(
            #[trigger] ra[y],
            #[trigger] ra[x],
        ) by {
            assert(ra[y] == a[y + 1] && ra[x] == a[x + 1]);
        }
        assert forall|x: int, y: int| 0 <= x < y < rb.len() implies !rel(
            #[trigger] rb[y],
            #[trigger] rb[x],
        ) by {
            assert(rb[y] == b[y + 1] && rb[x] == b[x + 1]);
        }
        lemma_sorted_is_unique(ra, rb, rel);
        assert forall|x: int| 0 <= x < a.len() implies a[x] == b[x] by {
            if x > 0 {
                assert(a[x] == ra[x - 1] && b[x] == rb[x - 1]);
            }
        }
        assert(a =~= b);
    }
}

/// Under a total order, inserting the elements of a sequence into an empty
/// heap and popping until it is empty yields exactly the sorted arrangement of
/// those elements.
pub proof fn lemma_total_order_extraction<T>(
    filled: Seq<Multiset<T>>,
    ins: Seq<T>,
    drained: Seq<Multiset<T>>,
    out: Seq<T>,
    sorted: Seq<T>,
    rel: spec_fn(T, T) -> bool,
)
    requires
        is_strict_weak_order(rel),
        is_total(rel),
        is_fill(filled, ins),
        drained.len() > 0,
        drained[0] == filled.last(),
        is_drain(drained, out, rel),
        sorted.to_multiset() == ins.to_multiset(),
        is_sorted_by(sorted, rel),
    ensures
        out == sorted,
{
    lemma_sorted_extraction(filled, ins, drained, out, rel);
    lemma_sorted_is_unique(out, sorted, rel);
}

/// A heap that holds one element `x` shows `x` on top, and pop gives back `x`
/// and leaves the heap empty.
pub proof fn lemma_single_element<T>(x: T, y: T)
    requires
        Multiset::<T>::empty().insert(x).contains(y),
    ensures
        y == x,
        Multiset::<T>::empty().insert(x).remove(y) =~= Multiset::<T>::empty(),
{
}

} // verus!
