//! The heap container and its two repair loops.
use vstd::multiset::Multiset;
use vstd::prelude::*;

use crate::index::{_left_id, _parent_id, _right_id, is_ancestor_or_self, left, parent, right};
use crate::order::{callable_on_all, is_priority_order, is_strict_weak_order, is_top};

verus! {

broadcast use vstd::seq_lib::group_to_multiset_ensures, vstd::multiset::group_multiset_axioms;

/// No element is strictly before its parent.
pub open spec fn is_heap<T>(s: Seq<T>, rel: spec_fn(T, T) -> bool) -> bool {
    forall|i: int| 0 < i < s.len() ==> !rel(#[trigger] s[i], s[parent(i)])
}

/// `s` with the elements at `a` and `b` exchanged.
pub open spec fn swapped<T>(s: Seq<T>, a: int, b: int) -> Seq<T> {
    s.update(a, s[b]).update(b, s[a])
}

/// The heap property holds except between the node at `k` and its parent;
/// the children of `k` are not before the parent of `k` either.
spec fn heap_but_up<T>(s: Seq<T>, k: int, rel: spec_fn(T, T) -> bool) -> bool {
    &&& forall|i: int| 0 < i < s.len() && i != k ==> !rel(#[trigger] s[i], s[parent(i)])
    &&& forall|c: int|
        0 < c < s.len() && parent(c) == k && k > 0 ==> !rel(#[trigger] s[c], s[parent(k)])
}

/// The heap property holds except between the node at `k` and its children;
/// the children of `k` are not before the parent of `k` either.
spec fn heap_but_down<T>(s: Seq<T>, k: int, rel: spec_fn(T, T) -> bool) -> bool {
    &&& forall|i: int| 0 < i < s.len() && parent(i) != k ==> !rel(#[trigger] s[i], s[parent(i)])
    &&& forall|c: int|
        0 < c < s.len() && parent(c) == k && k > 0 ==> !rel(#[trigger] s[c], s[parent(k)])
}

proof fn lemma_asymmetric<T>(rel: spec_fn(T, T) -> bool, a: T, b: T)
    requires
        is_strict_weak_order(rel),
        rel(a, b),
    ensures
        !rel(b, a),
{
    if rel(b, a) {
        assert(rel(a, a));
    }
}

proof fn lemma_swapped_multiset<T>(s: Seq<T>, a: int, b: int)
    requires
        0 <= a < s.len(),
        0 <= b < s.len(),
    ensures
        swapped(s, a, b).to_multiset() =~= s.to_multiset(),
{
    let u = s.update(a, s[b]);
    assert(u[b] == s[b] || a == b);
}

/// Exchanging the node at `k` with its parent, which it is strictly before,
/// moves the defect up to the parent.
proof fn lemma_up_step<T>(s: Seq<T>, k: int, rel: spec_fn(T, T) -> bool)
    requires
        is_strict_weak_order(rel),
        0 < k < s.len(),
        heap_but_up(s, k, rel),
        rel(s[k], s[parent(k)]),
    ensures
        heap_but_up(swapped(s, parent(k), k), parent(k), rel),
{
    let p = parent(k);
    let t = swapped(s, p, k);
    let x = s[k];
    let y = s[p];
    lemma_asymmetric(rel, x, y);
    assert forall|i: int| 0 < i < t.len() && i != p implies !rel(#[trigger] t[i], t[parent(i)]) by {
        if i == k {
        } else if parent(i) == k {
            assert(!rel(s[i], s[parent(k)]));
        } else if parent(i) == p {
            assert(!rel(s[i], y));
            if rel(s[i], x) {
                assert(rel(s[i], y));
            }
        } else {
            assert(!rel(s[i], s[parent(i)]));
        }
    }
    assert forall|c: int| 0 < c < t.len() && parent(c) == p && p > 0 implies !rel(
        #[trigger] t[c],
        t[parent(p)],
    ) by {
        let g = s[parent(p)];
        assert(!rel(y, g));
        if c != k {
            assert(!rel(s[c], y));
        }
    }
}

/// After exchanging the node at `k` with the child `c` that is strictly
/// before it and not after its sibling, the defect has moved down to `c`.
proof fn lemma_down_step<T>(s: Seq<T>, k: int, c: int, rel: spec_fn(T, T) -> bool)
    requires
        is_strict_weak_order(rel),
        0 <= k < s.len(),
        0 < c < s.len(),
        parent(c) == k,
        heap_but_down(s, k, rel),
        rel(s[c], s[k]),
        forall|o: int| 0 < o < s.len() && parent(o) == k ==> !rel(#[trigger] s[o], s[c]),
    ensures
        heap_but_down(swapped(s, k, c), c, rel),
{
    let t = swapped(s, k, c);
    let x = s[k];
    let z = s[c];
    lemma_asymmetric(rel, z, x);
    assert forall|i: int| 0 < i < t.len() && parent(i) != c implies !rel(
        #[trigger] t[i],
        t[parent(i)],
    ) by {
        if i == c {
            assert(t[i] == x && t[parent(i)] == z);
        } else if parent(i) == k {
            assert(t[i] == s[i] && t[parent(i)] == z);
            assert(!rel(s[i], z));
        } else if i == k {
            assert(t[i] == z && t[parent(i)] == s[parent(k)]);
            assert(!rel(z, s[parent(k)]));
        } else {
            assert(t[i] == s[i] && t[parent(i)] == s[parent(i)]);
            assert(!rel(s[i], s[parent(i)]));
        }
    }
    assert forall|d: int| 0 < d < t.len() && parent(d) == c && c > 0 implies !rel(
        #[trigger] t[d],
        t[parent(c)],
    ) by {
        assert(!rel(s[d], s[parent(d)]));
    }
}

/// Moving the last element into the first place and dropping the last place
/// removes one copy of the first element.
proof fn lemma_swap_remove_first_multiset<T>(s: Seq<T>)
    requires
        s.len() > 0,
    ensures
        s.update(0, s.last()).drop_last().to_multiset() =~= s.to_multiset().remove(s[0]),
{
    let u = s.update(0, s.last());
    let t = u.drop_last();
    assert(u =~= t.push(s.last()));
    assert(s.to_multiset().contains(s[0]));
    assert(u.to_multiset() == t.to_multiset().insert(s.last()));
    assert(u.to_multiset() == s.to_multiset().insert(s.last()).remove(s[0]));
    assert forall|v: T| #[trigger] t.to_multiset().count(v) == s.to_multiset().remove(s[0]).count(
        v,
    ) by {
        assert(u.to_multiset().count(v) == t.to_multiset().insert(s.last()).count(v));
    }
}

/// In a heap the first element is not after any other.
proof fn lemma_root_is_top<T>(s: Seq<T>, rel: spec_fn(T, T) -> bool, i: int)
    requires
        is_strict_weak_order(rel),
        is_heap(s, rel),
        0 <= i < s.len(),
    ensures
        !rel(s[i], s[0]),
    decreases i,
{
    if i > 0 {
        lemma_root_is_top(s, rel, parent(i));
        assert(!rel(s[i], s[parent(i)]));
    }
}

/// The array after moving the element at `k` up while it is strictly before
/// its parent, under `rel`.
pub open spec fn sift_up<T>(s: Seq<T>, k: int, rel: spec_fn(T, T) -> bool) -> Seq<T>
    decreases k,
{
    if 0 < k < s.len() && rel(s[k], s[parent(k)]) {
        sift_up(swapped(s, parent(k), k), parent(k), rel)
    } else {
        s
    }
}

/// The position among `k` and its children that one step of sifting down
/// picks: the left child if it is strictly before `k`, then the right child if
/// it is strictly before that provisional pick.
pub open spec fn favourite<T>(s: Seq<T>, k: int, rel: spec_fn(T, T) -> bool) -> int {
    let f1 = if left(k) < s.len() && rel(s[left(k)], s[k]) {
        left(k)
    } else {
        k
    };
    if right(k) < s.len() && rel(s[right(k)], s[f1]) {
        right(k)
    } else {
        f1
    }
}

/// The array after moving the element at `k` down into its favourite child
/// until it is its own favourite or has no child, under `rel`.
pub open spec fn sift_down<T>(s: Seq<T>, k: int, rel: spec_fn(T, T) -> bool) -> Seq<T>
    decreases s.len() - k,
{
    if 0 <= k < s.len() && favourite(s, k, rel) != k {
        sift_down(swapped(s, k, favourite(s, k, rel)), favourite(s, k, rel), rel)
    } else {
        s
    }
}

/// Sifting up from the one defect leaves a heap.
proof fn lemma_sift_up_heap<T>(s: Seq<T>, k: int, rel: spec_fn(T, T) -> bool)
    requires
        is_strict_weak_order(rel),
        0 <= k < s.len(),
        heap_but_up(s, k, rel),
    ensures
        is_heap(sift_up(s, k, rel), rel),
    decreases k,
{
    if k > 0 && rel(s[k], s[parent(k)]) {
        lemma_up_step(s, k, rel);
        lemma_sift_up_heap(swapped(s, parent(k), k), parent(k), rel);
    } else if k > 0 {
        assert(!rel(s[k], s[parent(k)]));
    }
}

/// Sifting down from the one defect leaves a heap.
proof fn lemma_sift_down_heap<T>(s: Seq<T>, k: int, rel: spec_fn(T, T) -> bool)
    requires
        is_strict_weak_order(rel),
        0 <= k,
        heap_but_down(s, k, rel),
    ensures
        is_heap(sift_down(s, k, rel), rel),
    decreases s.len() - k,
{
    let (l, r) = (left(k), right(k));
    if k >= s.len() || l >= s.len() {
        assert forall|i: int| 0 < i < s.len() implies !rel(#[trigger] s[i], s[parent(i)]) by {
            assert(parent(i) != k);
        }
    } else {
        let c = favourite(s, k, rel);
        let f1 = if rel(s[l], s[k]) {
            l
        } else {
            k
        };
        if c == k {
            assert(!rel(s[l], s[k]));
            assert(r < s.len() ==> !rel(s[r], s[k]));
            assert forall|i: int| 0 < i < s.len() implies !rel(#[trigger] s[i], s[parent(i)]) by {
                if parent(i) == k {
                    assert(i == l || i == r);
                }
            }
        } else {
            if c == l {
                assert(r < s.len() ==> !rel(s[r], s[l]));
            } else {
                if f1 == l {
                    lemma_asymmetric(rel, s[r], s[l]);
                } else if rel(s[l], s[r]) {
                    assert(rel(s[l], s[k]));
                }
            }
            assert forall|o: int| 0 < o < s.len() && parent(o) == k implies !rel(
                #[trigger] s[o],
                s[c],
            ) by {
                assert(o == l || o == r);
            }
            lemma_down_step(s, k, c, rel);
            lemma_sift_down_heap(swapped(s, k, c), c, rel);
        }
    }
}

/// The parent of a position on the path from `i` to the root is on it too.
proof fn lemma_parent_on_path(k: int, i: int)
    requires
        0 < k,
        is_ancestor_or_self(k, i),
    ensures
        is_ancestor_or_self(parent(k), i),
    decreases i,
{
    if i != k {
        lemma_parent_on_path(k, parent(i));
    } else {
        assert(is_ancestor_or_self(parent(k), parent(k)));
    }
}

/// A binary heap of `T` ordered by a predicate fixed at construction:
/// `comparison_func(a, b)` reads "`a` has strictly higher priority than `b`",
/// and the element of highest priority is kept first.
pub struct Hearp<T: Clone, F: Fn(&T, &T) -> bool> {
    items: Vec<T>,
    comparison_func: F,
}

/// Exchanges the elements at `a` and `b`, using the last element as the
/// temporary that is moved around.
fn swap_items<T>(v: &mut Vec<T>, a: usize, b: usize)
    requires
        a < old(v).len(),
        b < old(v).len(),
    ensures
        final(v)@ == swapped(old(v)@, a as int, b as int),
{
    if a == b {
        proof {
            assert(swapped(v@, a as int, b as int) =~= v@);
        }
        return;
    }
    let (lo, hi) = if a < b {
        (a, b)
    } else {
        (b, a)
    };
    let ghost s = v@;
    let mut t = v.pop().unwrap();
    if hi == v.len() {
        std::mem::swap(&mut v[lo], &mut t);
    } else {
        std::mem::swap(&mut v[lo], &mut t);
        std::mem::swap(&mut v[hi], &mut t);
        std::mem::swap(&mut v[lo], &mut t);
    }
    v.push(t);
    proof {
        assert(v@ =~= swapped(s, a as int, b as int));
    }
}

impl<T: Clone, F: Fn(&T, &T) -> bool> View for Hearp<T, F> {
    type V = Multiset<T>;

    /// The elements held, counted with multiplicity.
    open spec fn view(&self) -> Multiset<T> {
        self.items().to_multiset()
    }
}

impl<T: Clone, F: Fn(&T, &T) -> bool> Hearp<T, F> {
    /// The elements in their array order: position `i` is the tree node whose
    /// parent is at `parent(i)`.
    pub closed spec fn items(&self) -> Seq<T> {
        self.items@
    }

    /// The comparison predicate the heap was built with.
    pub closed spec fn less(&self) -> F {
        self.comparison_func
    }

    /// The predicate can be called on any pair, and whenever it computes a
    /// strict weak order the array is a heap under that order.
    pub open spec fn wf(&self) -> bool {
        &&& callable_on_all(self.less())
        &&& forall|rel: spec_fn(T, T) -> bool|
            #[trigger] is_priority_order(self.less(), rel) ==> is_heap(self.items(), rel)
    }

    /// An empty heap ordered by `comparison_func`.
    pub fn new(comparison_func: F) -> (r: Self)
        requires
            callable_on_all(comparison_func),
        ensures
            r.wf(),
            r.less() == comparison_func,
            r.items() == Seq::<T>::empty(),
            r@ == Multiset::<T>::empty(),
    {
        let r = Hearp { items: Vec::new(), comparison_func };
        assert(r@ =~= Multiset::<T>::empty());
        r
    }

    /// Adds `item` as the last leaf and moves it up while it is strictly
    /// before its parent.
    pub fn insert(&mut self, item: T)
        requires
            old(self).wf(),
        ensures
            final(self).wf(),
            final(self).less() == old(self).less(),
            final(self)@ == old(self)@.insert(item),
    {
        let ghost s = self.items@;
        self.items.push(item);
        proof {
            let t = self.items@;
            assert forall|rel: spec_fn(T, T) -> bool|
                #[trigger] is_priority_order(self.comparison_func, rel) implies heap_but_up(
                t,
                s.len() as int,
                rel,
            ) by {
                assert(is_heap(s, rel));
                assert forall|i: int| 0 < i < t.len() && i != s.len() implies !rel(
                    #[trigger] t[i],
                    t[parent(i)],
                ) by {
                    assert(t[i] == s[i] && t[parent(i)] == s[parent(i)]);
                }
            }
        }
        self._upheap(self.items.len() - 1);
    }

    /// The element of highest priority, if any.
    pub fn peek(&self) -> (r: Option<&T>)
        requires
            self.wf(),
        ensures
            r is None <==> self.items().len() == 0,
            r matches Some(x) ==> {
                &&& *x == self.items()[0]
                &&& self@.contains(*x)
                &&& forall|rel: spec_fn(T, T) -> bool|
                    #[trigger] is_priority_order(self.less(), rel) ==> is_top(self@, *x, rel)
            },
    {
        if self.items.len() == 0 {
            None
        } else {
            proof {
                self.lemma_first_is_top();
            }
            Some(&self.items[0])
        }
    }

    /// A non-empty well-formed heap holds its first element, and that element
    /// is on top under every strict weak order its predicate computes.
    proof fn lemma_first_is_top(&self)
        requires
            self.wf(),
            self.items@.len() > 0,
        ensures
            self@.contains(self.items@[0]),
            forall|rel: spec_fn(T, T) -> bool|
                #[trigger] is_priority_order(self.less(), rel) ==> is_top(
                    self@,
                    self.items@[0],
                    rel,
                ),
    {
        let s = self.items@;
        assert(s.contains(s[0]));
        assert forall|rel: spec_fn(T, T) -> bool|
            #[trigger] is_priority_order(self.less(), rel) implies is_top(self@, s[0], rel) by {
            assert forall|y: T| #[trigger] self@.contains(y) implies !rel(y, s[0]) by {
                assert(s.contains(y));
                let i = choose|i: int| 0 <= i < s.len() && s[i] == y;
                lemma_root_is_top(s, rel, i);
            }
        }
    }

    /// Moves the element at `index` up while it is strictly before its parent.
    /// Only positions on the path from `index` to the root change.
    fn _upheap(&mut self, index: usize)
        requires
            callable_on_all(old(self).comparison_func),
            index < old(self).items@.len(),
        ensures
            final(self).comparison_func == old(self).comparison_func,
            final(self).items@.len() == old(self).items@.len(),
            final(self).items@.to_multiset() == old(self).items@.to_multiset(),
            forall|q: int|
                0 <= q < old(self).items@.len() && !is_ancestor_or_self(q, index as int)
                    ==> #[trigger] final(self).items@[q] == old(self).items@[q],
            index == 0 ==> final(self).items@ == old(self).items@,
            forall|rel: spec_fn(T, T) -> bool|
                #[trigger] is_priority_order(old(self).comparison_func, rel) ==> {
                    &&& final(self).items@ == sift_up(old(self).items@, index as int, rel)
                    &&& heap_but_up(old(self).items@, index as int, rel) ==> is_heap(
                        final(self).items@,
                        rel,
                    )
                },
    {
        let ghost s0 = self.items@;
        let mut k = index;
        while k > 0
            invariant
                k <= index < self.items@.len(),
                self.items@.len() == s0.len(),
                is_ancestor_or_self(k as int, index as int),
                k == index ==> self.items@ == s0,
                self.comparison_func == old(self).comparison_func,
                callable_on_all(self.comparison_func),
                self.items@.to_multiset() == s0.to_multiset(),
                forall|q: int|
                    0 <= q < s0.len() && !is_ancestor_or_self(q, index as int)
                        ==> #[trigger] self.items@[q] == s0[q],
                forall|rel: spec_fn(T, T) -> bool|
                    #[trigger] is_priority_order(self.comparison_func, rel) ==> sift_up(
                        self.items@,
                        k as int,
                        rel,
                    ) == sift_up(s0, index as int, rel),
            ensures
                self.items@.len() == s0.len(),
                self.comparison_func == old(self).comparison_func,
                index == 0 ==> self.items@ == s0,
                self.items@.to_multiset() == s0.to_multiset(),
                forall|q: int|
                    0 <= q < s0.len() && !is_ancestor_or_self(q, index as int)
                        ==> #[trigger] self.items@[q] == s0[q],
                forall|rel: spec_fn(T, T) -> bool|
                    #[trigger] is_priority_order(self.comparison_func, rel) ==> self.items@
                        == sift_up(s0, index as int, rel),
            decreases k,
        {
            let p = _parent_id(k);
            let before = (self.comparison_func)(&self.items[k], &self.items[p]);
            let ghost s = self.items@;
            if !before {
                proof {
                    assert forall|rel: spec_fn(T, T) -> bool|
                        #[trigger] is_priority_order(self.comparison_func, rel) implies s
                        == sift_up(s0, index as int, rel) by {
                        assert(!rel(s[k as int], s[p as int]));
                        assert(sift_up(s, k as int, rel) == s);
                    }
                }
                break;
            }
            swap_items(&mut self.items, p, k);
            proof {
                lemma_swapped_multiset(s, p as int, k as int);
                lemma_parent_on_path(k as int, index as int);
                assert forall|rel: spec_fn(T, T) -> bool|
                    #[trigger] is_priority_order(self.comparison_func, rel) implies sift_up(
                    self.items@,
                    p as int,
                    rel,
                ) == sift_up(s0, index as int, rel) by {
                    assert(rel(s[k as int], s[p as int]));
                    assert(sift_up(s, k as int, rel) == sift_up(self.items@, p as int, rel));
                }
            }
            k = p;
        }
        proof {
            assert forall|rel: spec_fn(T, T) -> bool|
                #[trigger] is_priority_order(self.comparison_func, rel) && heap_but_up(
                    s0,
                    index as int,
                    rel,
                ) implies is_heap(self.items@, rel) by {
                lemma_sift_up_heap(s0, index as int, rel);
            }
        }
    }

    /// Moves the element at `index` down, each time into its favourite child
    /// (the left child is tried first, then the right child against that
    /// provisional pick), until it is its own favourite or has no child. Only
    /// positions in the subtree of `index` change; with no child, nothing does.
    fn _downheap(&mut self, index: usize)
        requires
            callable_on_all(old(self).comparison_func),
        ensures
            final(self).comparison_func == old(self).comparison_func,
            final(self).items@.len() == old(self).items@.len(),
            final(self).items@.to_multiset() == old(self).items@.to_multiset(),
            forall|q: int|
                0 <= q < old(self).items@.len() && !is_ancestor_or_self(index as int, q)
                    ==> #[trigger] final(self).items@[q] == old(self).items@[q],
            left(index as int) >= old(self).items@.len() ==> final(self).items@ == old(
                self,
            ).items@,
            forall|rel: spec_fn(T, T) -> bool|
                #[trigger] is_priority_order(old(self).comparison_func, rel) ==> {
                    &&& final(self).items@ == sift_down(old(self).items@, index as int, rel)
                    &&& heap_but_down(old(self).items@, index as int, rel) ==> is_heap(
                        final(self).items@,
                        rel,
                    )
                },
    {
        let ghost s0 = self.items@;
        let mut k = index;
        let len = self.items.len();
        loop
            invariant
                index <= k,
                self.items@.len() == len == s0.len(),
                is_ancestor_or_self(index as int, k as int),
                k == index ==> self.items@ == s0,
                k != index ==> left(index as int) < len,
                self.comparison_func == old(self).comparison_func,
                callable_on_all(self.comparison_func),
                self.items@.to_multiset() == s0.to_multiset(),
                forall|q: int|
                    0 <= q < s0.len() && !is_ancestor_or_self(index as int, q)
                        ==> #[trigger] self.items@[q] == s0[q],
                forall|rel: spec_fn(T, T) -> bool|
                    #[trigger] is_priority_order(self.comparison_func, rel) ==> sift_down(
                        self.items@,
                        k as int,
                        rel,
                    ) == sift_down(s0, index as int, rel),
            ensures
                self.items@.len() == s0.len(),
                self.comparison_func == old(self).comparison_func,
                left(index as int) >= s0.len() ==> self.items@ == s0,
                self.items@.to_multiset() == s0.to_multiset(),
                forall|q: int|
                    0 <= q < s0.len() && !is_ancestor_or_self(index as int, q)
                        ==> #[trigger] self.items@[q] == s0[q],
                forall|rel: spec_fn(T, T) -> bool|
                    #[trigger] is_priority_order(self.comparison_func, rel) ==> self.items@
                        == sift_down(s0, index as int, rel),
            decreases len - k,
        {
            let ghost s = self.items@;
            if k >= len / 2 {
                proof {
                    assert forall|rel: spec_fn(T, T) -> bool|
                        #[trigger] is_priority_order(self.comparison_func, rel) implies s
                        == sift_down(s0, index as int, rel) by {
                        assert(sift_down(s, k as int, rel) == s);
                    }
                }
                break;
            }
            let lid = _left_id(k);
            let rid = _right_id(k);
            let mut favourite = k;
            let l_before = (self.comparison_func)(&self.items[lid], &self.items[favourite]);
            if l_before {
                favourite = lid;
            }
            if rid < len {
                let r_before = (self.comparison_func)(&self.items[rid], &self.items[favourite]);
                if r_before {
                    favourite = rid;
                }
            }
            proof {
                assert forall|rel: spec_fn(T, T) -> bool|
                    #[trigger] is_priority_order(self.comparison_func, rel) implies favourite
                    == crate::heap::favourite(s, k as int, rel) by {
                    assert(l_before == rel(s[lid as int], s[k as int]));
                }
            }
            if favourite == k {
                proof {
                    assert forall|rel: spec_fn(T, T) -> bool|
                        #[trigger] is_priority_order(self.comparison_func, rel) implies s
                        == sift_down(s0, index as int, rel) by {
                        assert(sift_down(s, k as int, rel) == s);
                    }
                    assert(left(index as int) <= left(k as int) < len);
                }
                break;
            }
            swap_items(&mut self.items, k, favourite);
            proof {
                lemma_swapped_multiset(s, k as int, favourite as int);
                assert(is_ancestor_or_self(index as int, favourite as int));
                assert(left(index as int) <= left(k as int) < len);
                assert forall|rel: spec_fn(T, T) -> bool|
                    #[trigger] is_priority_order(self.comparison_func, rel) implies sift_down(
                    self.items@,
                    favourite as int,
                    rel,
                ) == sift_down(s0, index as int, rel) by {
                    assert(sift_down(s, k as int, rel) == sift_down(
                        self.items@,
                        favourite as int,
                        rel,
                    ));
                }
            }
            k = favourite;
        }
        proof {
            assert forall|rel: spec_fn(T, T) -> bool|
                #[trigger] is_priority_order(self.comparison_func, rel) && heap_but_down(
                    s0,
                    index as int,
                    rel,
                ) implies is_heap(self.items@, rel) by {
                lemma_sift_down_heap(s0, index as int, rel);
            }
        }
    }

    /// Removes and returns the element of highest priority, if any: the last
    /// element takes the first place and moves down.
    pub fn pop(&mut self) -> (r: Option<T>)
        requires
            old(self).wf(),
        ensures
            final(self).wf(),
            final(self).less() == old(self).less(),
            r is None <==> old(self)@.len() == 0,
            r is None ==> final(self)@ == old(self)@,
            r matches Some(x) ==> {
                &&& x == old(self).items()[0]
                &&& old(self)@.contains(x)
                &&& final(self)@ == old(self)@.remove(x)
                &&& forall|rel: spec_fn(T, T) -> bool|
                    #[trigger] is_priority_order(old(self).less(), rel) ==> is_top(
                        old(self)@,
                        x,
                        rel,
                    )
            },
    {
        if self.items.len() == 0 {
            return None;
        }
        proof {
            self.lemma_first_is_top();
        }
        let ghost s = self.items@;
        let top = self.items.swap_remove(0);
        proof {
            let t = self.items@;
            lemma_swap_remove_first_multiset(s);
            assert forall|rel: spec_fn(T, T) -> bool|
                #[trigger] is_priority_order(self.comparison_func, rel) implies heap_but_down(
                t,
                0,
                rel,
            ) by {
                assert forall|i: int| 0 < i < t.len() && parent(i) != 0 implies !rel(
                    #[trigger] t[i],
                    t[parent(i)],
                ) by {
                    assert(t[i] == s[i] && t[parent(i)] == s[parent(i)]);
                }
            }
        }
        if self.items.len() > 0 {
            self._downheap(0);
        }
        Some(top)
    }
}

} // verus!
