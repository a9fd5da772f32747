//! Position arithmetic of a complete binary tree laid out in an array.
use vstd::prelude::*;

verus! {

/// Position of the parent of the node at `i` (for `i > 0`).
pub open spec fn parent(i: int) -> int {
    (i - 1) / 2
}

/// Position of the left child of the node at `i`.
pub open spec fn left(i: int) -> int {
    2 * i + 1
}

/// Position of the right child of the node at `i`.
pub open spec fn right(i: int) -> int {
    2 * i + 2
}

/// `a` is `i` or one of its ancestors: `a` lies on the path from `i` to the root.
pub open spec fn is_ancestor_or_self(a: int, i: int) -> bool
    decreases i,
{
    i == a || (i > 0 && is_ancestor_or_self(a, parent(i)))
}

/// Parent position of a non-root position.
pub fn _parent_id(index: usize) -> (r: usize)
    requires
        index > 0,
    ensures
        r == parent(index as int),
{
    (index - 1) / 2
}

/// Left child position.
pub fn _left_id(index: usize) -> (r: usize)
    requires
        left(index as int) <= usize::MAX,
    ensures
        r == left(index as int),
{
    index * 2 + 1
}

/// Right child position.
pub fn _right_id(index: usize) -> (r: usize)
    requires
        right(index as int) <= usize::MAX,
    ensures
        r == right(index as int),
{
    index * 2 + 2
}

} // verus!
