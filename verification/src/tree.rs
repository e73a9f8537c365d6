//! The space-partitioning binary tree: a leaf holds a bounded run of
//! internal point indices, an inner node holds a splitting plane and two
//! exclusively-owned children, the positive-side child on the right.

use vstd::prelude::*;

use crate::hyperplane::{plane_built_from, spec_is_above, HyperPlane};
use crate::vector::Vector;

verus! {

/// A split of `indices` could not make progress: some two distinct members
/// span a plane that puts every member on one side. This is the one
/// situation in which the builder may force a leaf larger than the
/// leaf-size threshold.
pub open spec fn degenerate_split(indices: Seq<usize>, vecs: Seq<Vector>) -> bool {
    exists|pa: int, pb: int, coeffs: Seq<i64>, konst: int|
        {
            &&& 0 <= pa < indices.len()
            &&& 0 <= pb < indices.len()
            &&& pa != pb
            &&& #[trigger] plane_built_from(
                coeffs,
                konst,
                vecs[indices[pa] as int]@,
                vecs[indices[pb] as int]@,
            )
            &&& ((forall|j: int|
                0 <= j < indices.len() ==> spec_is_above(
                    coeffs,
                    konst,
                    vecs[#[trigger] indices[j] as int]@,
                )) || (forall|j: int|
                0 <= j < indices.len() ==> !spec_is_above(
                    coeffs,
                    konst,
                    vecs[#[trigger] indices[j] as int]@,
                )))
        }
}

/// A leaf: an ordered sequence of internal point indices. `forced` is a
/// specification-only record of degenerate-split handling: a forced leaf
/// was made when a split could not shrink the index set, and is the one
/// kind of leaf that may exceed the leaf-size threshold.
pub struct LeafNode {
    pub indices: Vec<usize>,
    pub forced: Ghost<bool>,
}

/// An inner node: a splitting plane and its two children. Points on the
/// plane's positive side belong under `right_node`, the rest under
/// `left_node`.
pub struct InnerNode {
    pub hyperplane: HyperPlane,
    pub left_node: Node,
    pub right_node: Node,
}

/// A partition-tree node.
pub enum Node {
    Inner(Box<InnerNode>),
    Leaf(LeafNode),
}

impl Node {
    /// Every internal point index stored in the tree's leaves, left to
    /// right.
    pub open spec fn points(self) -> Seq<usize>
        decreases self,
    {
        match self {
            Node::Leaf(l) => l.indices@,
            Node::Inner(b) => b.left_node.points() + b.right_node.points(),
        }
    }

    /// Structural well-formedness of a tree over `n` points of dimension
    /// `dim`: every stored index is a valid point position and every plane
    /// has the shape a build gives it.
    pub open spec fn wf(self, dim: nat, n: nat) -> bool
        decreases self,
    {
        match self {
            Node::Leaf(l) => forall|i: int|
                0 <= i < l.indices@.len() ==> (#[trigger] l.indices@[i]) < n,
            Node::Inner(b) => {
                &&& b.hyperplane.valid(dim)
                &&& b.left_node.wf(dim, n)
                &&& b.right_node.wf(dim, n)
            },
        }
    }

    /// Leaf bound: every leaf holds at most `max` indices, except a leaf
    /// that degenerate-split handling forced — and a leaf is forced only
    /// when it is oversized and genuinely degenerate: some plane spanned by
    /// two of its own members fails to separate it at all.
    pub open spec fn leaves_bounded(self, max: int, vecs: Seq<Vector>) -> bool
        decreases self,
    {
        match self {
            Node::Leaf(l) => {
                if l.forced@ {
                    l.indices@.len() > max && degenerate_split(l.indices@, vecs)
                } else {
                    l.indices@.len() <= max
                }
            },
            Node::Inner(b) => b.left_node.leaves_bounded(max, vecs) && b.right_node.leaves_bounded(
                max,
                vecs,
            ),
        }
    }

    /// The side invariant that makes the tree a space partition: under
    /// every inner node, the indices stored in the right subtree are the
    /// points on the node's plane's positive side, and those in the left
    /// subtree are the rest.
    pub open spec fn respects_planes(self, vecs: Seq<Vector>) -> bool
        decreases self,
    {
        match self {
            Node::Leaf(_) => true,
            Node::Inner(b) => {
                &&& (forall|j: int|
                    0 <= j < b.right_node.points().len() ==> spec_is_above(
                        b.hyperplane.coefficients@,
                        b.hyperplane.constant as int,
                        vecs[#[trigger] b.right_node.points()[j] as int]@,
                    ))
                &&& (forall|j: int|
                    0 <= j < b.left_node.points().len() ==> !spec_is_above(
                        b.hyperplane.coefficients@,
                        b.hyperplane.constant as int,
                        vecs[#[trigger] b.left_node.points()[j] as int]@,
                    ))
                &&& b.left_node.respects_planes(vecs)
                &&& b.right_node.respects_planes(vecs)
            },
        }
    }

    /// The child on the query's side of an inner node's plane: the one a
    /// quota traversal descends into first. A leaf is its own matching
    /// child.
    pub open spec fn matching_child(self, query: Seq<i64>) -> Node {
        match self {
            Node::Leaf(_) => self,
            Node::Inner(b) => {
                if spec_is_above(b.hyperplane.coefficients@, b.hyperplane.constant as int, query) {
                    b.right_node
                } else {
                    b.left_node
                }
            },
        }
    }
}

/// A concatenation without duplicates is made of two duplicate-free parts
/// with no element in common.
pub(crate) proof fn lemma_concat_no_dup_parts<A>(a: Seq<A>, b: Seq<A>)
    requires
        (a + b).no_duplicates(),
    ensures
        a.no_duplicates(),
        b.no_duplicates(),
        forall|x: A| a.contains(x) ==> !b.contains(x),
{
    assert forall|i: int, j: int| 0 <= i < a.len() && 0 <= j < a.len() && i != j implies a[i]
        != a[j] by {
        assert((a + b)[i] == a[i] && (a + b)[j] == a[j]);
    }
    assert forall|i: int, j: int| 0 <= i < b.len() && 0 <= j < b.len() && i != j implies b[i]
        != b[j] by {
        assert((a + b)[a.len() + i] == b[i] && (a + b)[a.len() + j] == b[j]);
    }
    assert forall|x: A| a.contains(x) implies !b.contains(x) by {
        if b.contains(x) {
            let i = choose|i: int| 0 <= i < a.len() && a[i] == x;
            let j = choose|j: int| 0 <= j < b.len() && b[j] == x;
            assert((a + b)[i] == x && (a + b)[a.len() + j] == x);
        }
    }
}

} // verus!
