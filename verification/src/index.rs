//! The forest index: an ensemble of independently built partition trees
//! over one deduplicated point set, with quota-based approximate search.

use vstd::prelude::*;

use crate::dedup::{
    dedup_keys, deduplicate, kept_indices, lemma_kept_upto_nonempty, lemma_kept_upto_props,
    views_of,
};
use crate::hyperplane::{plane_built_from, spec_is_above, HyperPlane};
use crate::rng::{rng_from_seed, sample_two_distinct};
use crate::sorting::sorted_by_distance;
use crate::tree::{lemma_concat_no_dup_parts, InnerNode, LeafNode, Node};
use crate::vector::{spec_sq_dist, vectors_wf, Vector};
use crate::Error;

verus! {

/// The internal indices `0, 1, .., n-1` that a freshly built tree
/// partitions.
pub open spec fn all_points_seq(n: nat) -> Seq<usize> {
    Seq::new(n, |i: int| i as usize)
}

/// Membership test for the positive side of the plane
/// `{x : coeffs . x + konst >= 0}`, as a predicate on internal indices.
pub open spec fn above_pred(vecs: Seq<Vector>, coeffs: Seq<i64>, konst: int) -> spec_fn(
    usize,
) -> bool {
    |id: usize| spec_is_above(coeffs, konst, vecs[id as int]@)
}

/// Membership test for the strict negative side of the plane
/// `{x : coeffs . x + konst >= 0}`, as a predicate on internal indices.
pub open spec fn below_pred(vecs: Seq<Vector>, coeffs: Seq<i64>, konst: int) -> spec_fn(
    usize,
) -> bool {
    |id: usize| !spec_is_above(coeffs, konst, vecs[id as int]@)
}

/// The members of `indexes` whose points lie on the positive side of the
/// plane `{x : coeffs . x + konst >= 0}`, in their original relative
/// order.
pub open spec fn above_partition(
    indexes: Seq<usize>,
    vecs: Seq<Vector>,
    coeffs: Seq<i64>,
    konst: int,
) -> Seq<usize> {
    indexes.filter(above_pred(vecs, coeffs, konst))
}

/// The members of `indexes` whose points lie strictly below the plane
/// `{x : coeffs . x + konst >= 0}`, in their original relative order.
pub open spec fn below_partition(
    indexes: Seq<usize>,
    vecs: Seq<Vector>,
    coeffs: Seq<i64>,
    konst: int,
) -> Seq<usize> {
    indexes.filter(below_pred(vecs, coeffs, konst))
}

/// Widening of one index to `int`, as a function value.
pub open spec fn usize_to_int_fn() -> spec_fn(usize) -> int {
    |x: usize| x as int
}

/// A run of indices, each widened to `int`.
pub open spec fn indices_as_ints(s: Seq<usize>) -> Seq<int> {
    s.map_values(usize_to_int_fn())
}

/// The forest: an ordered sequence of independently built partition trees,
/// the deduplicated points they index, and the surviving external ids,
/// position for position. Built once; read-only afterwards.
pub struct ANNIndex {
    trees: Vec<Node>,
    ids: Vec<i32>,
    values: Vec<Vector>,
}

impl ANNIndex {
    /// How many deduplicated points the index holds.
    pub closed spec fn num_points(&self) -> nat {
        self.values@.len()
    }

    /// The dimension every stored point and every query must have.
    pub closed spec fn spec_dim(&self) -> nat {
        self.values@[0]@.len()
    }

    /// The stored points' coordinates, by internal index.
    pub closed spec fn points_view(&self) -> Seq<Seq<i64>> {
        views_of(self.values@)
    }

    /// The surviving external ids, by internal index.
    pub closed spec fn ids_view(&self) -> Seq<i32> {
        self.ids@
    }

    /// How many trees the forest holds.
    pub closed spec fn num_trees(&self) -> nat {
        self.trees@.len()
    }

    /// Every tree's leaves hold at most `max` indices, except leaves that
    /// witness a genuinely degenerate split.
    pub closed spec fn trees_leaves_bounded(&self, max: int) -> bool {
        forall|t: int| 0 <= t < self.trees@.len() ==> (#[trigger] self.trees@[t]).leaves_bounded(
            max,
            self.values@,
        )
    }

    /// The index invariant: ids and points correspond one to one, every
    /// stored point is well formed with the index's dimension, and every
    /// tree is a well-formed partition of exactly the internal indices
    /// `0 .. num_points()`.
    pub closed spec fn wf(&self) -> bool {
        &&& self.ids@.len() == self.values@.len()
        &&& self.trees@.len() >= 1
        &&& vectors_wf(self.values@, self.spec_dim())
        &&& forall|t: int| 0 <= t < self.trees@.len() ==> (#[trigger] self.trees@[t]).wf(
            self.spec_dim(),
            self.values@.len(),
        )
        &&& forall|t: int| 0 <= t < self.trees@.len()
            ==> (#[trigger] self.trees@[t]).points().to_multiset() == all_points_seq(
            self.values@.len(),
        ).to_multiset()
        &&& forall|t: int| 0 <= t < self.trees@.len() ==> (
        #[trigger] self.trees@[t]).respects_planes(self.values@)
    }
}

/// An independent copy of a run of indices.
fn copy_indices(v: &Vec<usize>) -> (r: Vec<usize>)
    ensures
        r@ == v@,
{
    let n = v.len();
    let mut result: Vec<usize> = Vec::new();
    let mut i: usize = 0;
    while i < n
        invariant
            n == v@.len(),
            0 <= i <= n,
            result@ == v@.subrange(0, i as int),
        decreases n - i,
    {
        result.push(v[i]);
        proof {
            assert(v@.subrange(0, i + 1) == v@.subrange(0, i as int).push(v@[i as int]));
        }
        i = i + 1;
    }
    proof {
        assert(v@.subrange(0, n as int) == v@);
    }
    result
}

impl ANNIndex {
    /// Samples two distinct members of `indexes`, builds the plane those
    /// two points span, and partitions `indexes` into the points on the
    /// plane's positive side and the rest, in input order.
    fn build_hyperplane(
        indexes: &Vec<usize>,
        all_vecs: &Vec<Vector>,
        rng: &mut rand::rngs::StdRng,
    ) -> (r: (HyperPlane, Vec<usize>, Vec<usize>))
        requires
            indexes@.len() >= 2,
            all_vecs@.len() >= 1,
            vectors_wf(all_vecs@, all_vecs@[0]@.len()),
            forall|i: int| 0 <= i < indexes@.len() ==> (#[trigger] indexes@[i]) < all_vecs@.len(),
        ensures
            r.0.valid(all_vecs@[0]@.len()),
            exists|pa: int, pb: int|
                0 <= pa < indexes@.len() && 0 <= pb < indexes@.len() && pa != pb
                    && plane_built_from(
                    r.0.coefficients@,
                    r.0.constant as int,
                    all_vecs@[indexes@[pa] as int]@,
                    all_vecs@[indexes@[pb] as int]@,
                ),
            r.1@.to_multiset().add(r.2@.to_multiset()) == indexes@.to_multiset(),
            forall|j: int| 0 <= j < r.1@.len() ==> (#[trigger] r.1@[j]) < all_vecs@.len()
                && spec_is_above(
                r.0.coefficients@,
                r.0.constant as int,
                all_vecs@[r.1@[j] as int]@,
            ),
            forall|j: int| 0 <= j < r.2@.len() ==> (#[trigger] r.2@[j]) < all_vecs@.len()
                && !spec_is_above(
                r.0.coefficients@,
                r.0.constant as int,
                all_vecs@[r.2@[j] as int]@,
            ),
            r.1@ == above_partition(indexes@, all_vecs@, r.0.coefficients@, r.0.constant as int),
            r.2@ == below_partition(indexes@, all_vecs@, r.0.coefficients@, r.0.constant as int),
    {
        broadcast use vstd::seq_lib::group_to_multiset_ensures;

        let (p0, p1) = sample_two_distinct(rng, indexes.len());
        let a = indexes[p0];
        let b = indexes[p1];
        let coefficients = all_vecs[a].subtract(&all_vecs[b]);
        let point_on_plane = all_vecs[a].avg(&all_vecs[b]);
        proof {
            crate::vector::lemma_spec_dot_bound(coefficients@, point_on_plane@);
        }
        let constant = -coefficients.dot_prod(&point_on_plane);
        let hyperplane = HyperPlane { coefficients, constant };
        proof {
            let va = all_vecs@[a as int]@;
            let vb = all_vecs@[b as int]@;
            assert(point_on_plane@ =~= crate::hyperplane::mid_of(va, vb));
            assert(plane_built_from(hyperplane.coefficients@, hyperplane.constant as int, va, vb));
        }
        let mut above: Vec<usize> = Vec::new();
        let mut below: Vec<usize> = Vec::new();
        proof {
            reveal(Seq::filter);
            assert(above@ =~= above_partition(
                indexes@.subrange(0, 0),
                all_vecs@,
                hyperplane.coefficients@,
                hyperplane.constant as int,
            ));
            assert(below@ =~= below_partition(
                indexes@.subrange(0, 0),
                all_vecs@,
                hyperplane.coefficients@,
                hyperplane.constant as int,
            ));
        }
        let n = indexes.len();
        let mut i: usize = 0;
        while i < n
            invariant
                n == indexes@.len(),
                all_vecs@.len() >= 1,
                vectors_wf(all_vecs@, all_vecs@[0]@.len()),
                forall|j: int| 0 <= j < indexes@.len() ==> (#[trigger] indexes@[j])
                    < all_vecs@.len(),
                hyperplane.valid(all_vecs@[0]@.len()),
                0 <= i <= n,
                above@.to_multiset().add(below@.to_multiset()) == indexes@.subrange(
                    0,
                    i as int,
                ).to_multiset(),
                forall|j: int| 0 <= j < above@.len() ==> (#[trigger] above@[j]) < all_vecs@.len()
                    && spec_is_above(
                    hyperplane.coefficients@,
                    hyperplane.constant as int,
                    all_vecs@[above@[j] as int]@,
                ),
                forall|j: int| 0 <= j < below@.len() ==> (#[trigger] below@[j]) < all_vecs@.len()
                    && !spec_is_above(
                    hyperplane.coefficients@,
                    hyperplane.constant as int,
                    all_vecs@[below@[j] as int]@,
                ),
                above@ == above_partition(
                    indexes@.subrange(0, i as int),
                    all_vecs@,
                    hyperplane.coefficients@,
                    hyperplane.constant as int,
                ),
                below@ == below_partition(
                    indexes@.subrange(0, i as int),
                    all_vecs@,
                    hyperplane.coefficients@,
                    hyperplane.constant as int,
                ),
            decreases n - i,
        {
            let ghost pre_above = above@;
            let ghost pre_below = below@;
            let id = indexes[i];
            if hyperplane.point_is_above(&all_vecs[id]) {
                above.push(id);
                proof {
                    broadcast use vstd::multiset::group_multiset_axioms;
                    broadcast use vstd::seq_lib::group_to_multiset_ensures;

                    assert(above@ == pre_above.push(id));
                    assert(above@.to_multiset() =~= pre_above.to_multiset().insert(id));
                    indexes@.subrange(0, i as int).lemma_filter_push(
                        id,
                        above_pred(all_vecs@, hyperplane.coefficients@, hyperplane.constant as int),
                    );
                    indexes@.subrange(0, i as int).lemma_filter_push(
                        id,
                        below_pred(all_vecs@, hyperplane.coefficients@, hyperplane.constant as int),
                    );
                    assert(above_pred(
                        all_vecs@,
                        hyperplane.coefficients@,
                        hyperplane.constant as int,
                    )(id));
                    assert(!(below_pred(
                        all_vecs@,
                        hyperplane.coefficients@,
                        hyperplane.constant as int,
                    )(id)));
                    assert(indexes@.subrange(0, i + 1) == indexes@.subrange(0, i as int).push(id));
                    assert(above@ == above_partition(
                        indexes@.subrange(0, i + 1),
                        all_vecs@,
                        hyperplane.coefficients@,
                        hyperplane.constant as int,
                    ));
                    assert(below@ == below_partition(
                        indexes@.subrange(0, i + 1),
                        all_vecs@,
                        hyperplane.coefficients@,
                        hyperplane.constant as int,
                    ));
                }
            } else {
                below.push(id);
                proof {
                    broadcast use vstd::multiset::group_multiset_axioms;
                    broadcast use vstd::seq_lib::group_to_multiset_ensures;

                    assert(below@ == pre_below.push(id));
                    assert(below@.to_multiset() =~= pre_below.to_multiset().insert(id));
                    assert(pre_above.to_multiset().add(pre_below.to_multiset().insert(id))
                        =~= pre_above.to_multiset().add(pre_below.to_multiset()).insert(id));
                    indexes@.subrange(0, i as int).lemma_filter_push(
                        id,
                        above_pred(all_vecs@, hyperplane.coefficients@, hyperplane.constant as int),
                    );
                    indexes@.subrange(0, i as int).lemma_filter_push(
                        id,
                        below_pred(all_vecs@, hyperplane.coefficients@, hyperplane.constant as int),
                    );
                    assert(!(above_pred(
                        all_vecs@,
                        hyperplane.coefficients@,
                        hyperplane.constant as int,
                    )(id)));
                    assert(below_pred(
                        all_vecs@,
                        hyperplane.coefficients@,
                        hyperplane.constant as int,
                    )(id));
                    assert(indexes@.subrange(0, i + 1) == indexes@.subrange(0, i as int).push(id));
                    assert(above@ == above_partition(
                        indexes@.subrange(0, i + 1),
                        all_vecs@,
                        hyperplane.coefficients@,
                        hyperplane.constant as int,
                    ));
                    assert(below@ == below_partition(
                        indexes@.subrange(0, i + 1),
                        all_vecs@,
                        hyperplane.coefficients@,
                        hyperplane.constant as int,
                    ));
                }
            }
            proof {
                broadcast use vstd::multiset::group_multiset_axioms;
                broadcast use vstd::seq_lib::group_to_multiset_ensures;

                assert(indexes@.subrange(0, i + 1) == indexes@.subrange(0, i as int).push(
                    indexes@[i as int],
                ));
                assert(indexes@.subrange(0, i + 1).to_multiset() =~= indexes@.subrange(
                    0,
                    i as int,
                ).to_multiset().insert(indexes@[i as int]));
                assert(above@.to_multiset().add(below@.to_multiset()) =~= indexes@.subrange(
                    0,
                    i + 1,
                ).to_multiset());
            }
            i = i + 1;
        }
        proof {
            assert(indexes@.subrange(0, n as int) == indexes@);
        }
        (hyperplane, above, below)
    }

    /// Builds one partition tree over `indexes`: a leaf once the index set
    /// fits the threshold, otherwise a random split and two recursively
    /// built children. A split that fails to shrink the index set is
    /// detected and forced into a leaf, so construction always terminates.
    fn build_a_tree(
        max_size: i32,
        indexes: &Vec<usize>,
        all_vecs: &Vec<Vector>,
        rng: &mut rand::rngs::StdRng,
    ) -> (r: Node)
        requires
            max_size >= 1,
            all_vecs@.len() >= 1,
            vectors_wf(all_vecs@, all_vecs@[0]@.len()),
            forall|i: int| 0 <= i < indexes@.len() ==> (#[trigger] indexes@[i]) < all_vecs@.len(),
        ensures
            r.wf(all_vecs@[0]@.len(), all_vecs@.len()),
            r.points().to_multiset() == indexes@.to_multiset(),
            r.leaves_bounded(max_size as int, all_vecs@),
            r.respects_planes(all_vecs@),
            indexes@.len() <= max_size as int ==> (r matches Node::Leaf(l) && l.indices@
                == indexes@ && !l.forced@),
        decreases indexes@.len(),
    {
        broadcast use vstd::seq_lib::group_to_multiset_ensures;
        broadcast use vstd::multiset::group_multiset_axioms;

        if indexes.len() <= max_size as usize {
            return Node::Leaf(LeafNode { indices: copy_indices(indexes), forced: Ghost(false) });
        }
        let (plane, above, below) = Self::build_hyperplane(indexes, all_vecs, rng);
        proof {
            assert(above@.to_multiset().len() + below@.to_multiset().len()
                == indexes@.to_multiset().len());
        }
        if above.len() == indexes.len() || below.len() == indexes.len() {
            proof {
                let coeffs = plane.coefficients@;
                let konst = plane.constant as int;
                let (pa, pb) = choose|pa: int, pb: int|
                    0 <= pa < indexes@.len() && 0 <= pb < indexes@.len() && pa != pb
                        && plane_built_from(
                        coeffs,
                        konst,
                        all_vecs@[indexes@[pa] as int]@,
                        all_vecs@[indexes@[pb] as int]@,
                    );
                assert(plane_built_from(
                    coeffs,
                    konst,
                    all_vecs@[indexes@[pa] as int]@,
                    all_vecs@[indexes@[pb] as int]@,
                ));
                if above@.len() == indexes@.len() {
                    assert(below@.len() == 0);
                    assert forall|j: int| 0 <= j < indexes@.len() implies spec_is_above(
                        coeffs,
                        konst,
                        all_vecs@[#[trigger] indexes@[j] as int]@,
                    ) by {
                        let x = indexes@[j];
                        assert(indexes@.contains(x));
                        assert(indexes@.to_multiset().count(x) > 0);
                        assert(above@.to_multiset().count(x) + below@.to_multiset().count(x)
                            == indexes@.to_multiset().count(x));
                        assert(!below@.contains(x));
                        assert(above@.to_multiset().count(x) > 0);
                        assert(above@.contains(x));
                        let j2 = choose|j2: int| 0 <= j2 < above@.len() && above@[j2] == x;
                        assert(above@[j2] == x);
                    }
                } else {
                    assert(above@.len() == 0);
                    assert forall|j: int| 0 <= j < indexes@.len() implies !spec_is_above(
                        coeffs,
                        konst,
                        all_vecs@[#[trigger] indexes@[j] as int]@,
                    ) by {
                        let x = indexes@[j];
                        assert(indexes@.contains(x));
                        assert(indexes@.to_multiset().count(x) > 0);
                        assert(above@.to_multiset().count(x) + below@.to_multiset().count(x)
                            == indexes@.to_multiset().count(x));
                        assert(!above@.contains(x));
                        assert(below@.to_multiset().count(x) > 0);
                        assert(below@.contains(x));
                        let j2 = choose|j2: int| 0 <= j2 < below@.len() && below@[j2] == x;
                        assert(below@[j2] == x);
                    }
                }
                assert(crate::tree::degenerate_split(indexes@, all_vecs@));
            }
            return Node::Leaf(LeafNode { indices: copy_indices(indexes), forced: Ghost(true) });
        }
        let node_above = Self::build_a_tree(max_size, &above, all_vecs, rng);
        let node_below = Self::build_a_tree(max_size, &below, all_vecs, rng);
        let result = Node::Inner(
            Box::new(
                InnerNode { hyperplane: plane, left_node: node_below, right_node: node_above },
            ),
        );
        proof {
            vstd::seq_lib::lemma_multiset_commutative(node_below.points(), node_above.points());
            assert(result.points().to_multiset() =~= indexes@.to_multiset());
            let coeffs = plane.coefficients@;
            let konst = plane.constant as int;
            assert forall|j: int| 0 <= j < node_above.points().len() implies spec_is_above(
                coeffs,
                konst,
                all_vecs@[#[trigger] node_above.points()[j] as int]@,
            ) by {
                let x = node_above.points()[j];
                assert(node_above.points().contains(x));
                assert(node_above.points().to_multiset().count(x) > 0);
                assert(above@.to_multiset().count(x) > 0);
                assert(above@.contains(x));
                let j2 = choose|j2: int| 0 <= j2 < above@.len() && above@[j2] == x;
                assert(above@[j2] == x);
            }
            assert forall|j: int| 0 <= j < node_below.points().len() implies !spec_is_above(
                coeffs,
                konst,
                all_vecs@[#[trigger] node_below.points()[j] as int]@,
            ) by {
                let x = node_below.points()[j];
                assert(node_below.points().contains(x));
                assert(node_below.points().to_multiset().count(x) > 0);
                assert(below@.to_multiset().count(x) > 0);
                assert(below@.contains(x));
                let j2 = choose|j2: int| 0 <= j2 < below@.len() && below@[j2] == x;
                assert(below@[j2] == x);
            }
            assert(result.respects_planes(all_vecs@));
        }
        result
    }
}

/// Whether `x` occurs in `v`.
fn vec_contains(v: &Vec<usize>, x: usize) -> (r: bool)
    ensures
        r == v@.contains(x),
{
    let n = v.len();
    let mut i: usize = 0;
    while i < n
        invariant
            n == v@.len(),
            0 <= i <= n,
            forall|j: int| 0 <= j < i ==> v@[j] != x,
        decreases n - i,
    {
        if v[i] == x {
            return true;
        }
        i = i + 1;
    }
    false
}

/// Set-style insertion: appends `idx` unless it is already a candidate.
fn insert_candidate(candidates: &mut Vec<usize>, idx: usize)
    ensures
        final(candidates)@ == (if old(candidates)@.contains(idx) {
            old(candidates)@
        } else {
            old(candidates)@.push(idx)
        }),
{
    if !vec_contains(candidates, idx) {
        candidates.push(idx);
    }
}

/// An element of a concatenation comes from one of its parts.
proof fn lemma_concat_contains<A>(a: Seq<A>, b: Seq<A>)
    ensures
        forall|x: A| (a + b).contains(x) <==> a.contains(x) || b.contains(x),
{
    assert forall|x: A| (a + b).contains(x) implies a.contains(x) || b.contains(x) by {
        let i = choose|i: int| 0 <= i < (a + b).len() && (a + b)[i] == x;
        if i < a.len() {
            assert(a[i] == x);
        } else {
            assert(b[i - a.len()] == x);
        }
    }
    assert forall|x: A| a.contains(x) || b.contains(x) implies (a + b).contains(x) by {
        if a.contains(x) {
            let i = choose|i: int| 0 <= i < a.len() && a[i] == x;
            assert((a + b)[i] == x);
        } else {
            let i = choose|i: int| 0 <= i < b.len() && b[i] == x;
            assert((a + b)[a.len() + i] == x);
        }
    }
}

/// A duplicate-free run of indices below `n` cannot be longer than `n`.
proof fn lemma_unique_bounded_len(s: Seq<usize>, n: nat)
    requires
        s.no_duplicates(),
        forall|i: int| 0 <= i < s.len() ==> (#[trigger] s[i] as nat) < n,
    ensures
        s.len() <= n,
{
    let f = |x: usize| x as int;
    let si = s.map_values(f);
    s.lemma_no_duplicates_injective(f);
    si.unique_seq_to_set();
    vstd::set_lib::lemma_int_range(0, n as int);
    assert(si.to_set().subset_of(vstd::set_lib::set_int_range(0, n as int))) by {
        assert forall|x: int| si.to_set().contains(x) implies 0 <= x < n by {
            assert(si.contains(x));
            let i = choose|i: int| 0 <= i < si.len() && si[i] == x;
            assert((s[i] as nat) < n);
        }
    }
    vstd::set_lib::lemma_len_subset(si.to_set(), vstd::set_lib::set_int_range(0, n as int));
}

/// A sequence whose multiset is the multiset of `0 .. n` is a
/// duplicate-free arrangement of exactly those `n` indices.
proof fn lemma_full_multiset_shape(pts: Seq<usize>, n: nat)
    requires
        n <= usize::MAX,
        pts.to_multiset() == all_points_seq(n).to_multiset(),
    ensures
        pts.no_duplicates(),
        pts.len() == n,
        forall|x: usize| pts.contains(x) ==> (x as nat) < n,
    decreases n,
{
    broadcast use vstd::seq_lib::group_to_multiset_ensures;

    let full = all_points_seq(n);
    assert(pts.to_multiset().len() == pts.len());
    assert(full.to_multiset().len() == full.len());
    assert(full.no_duplicates()) by {
        assert forall|i: int, j: int|
            0 <= i < full.len() && 0 <= j < full.len() && i != j implies full[i] != full[j] by {
            assert(full[i] == i as usize && full[j] == j as usize);
        }
    }
    full.lemma_multiset_has_no_duplicates();
    assert forall|x: usize| pts.to_multiset().contains(x) implies pts.to_multiset().count(x)
        == 1 by {
        assert(full.to_multiset().count(x) > 0);
        assert(full.contains(x));
    }
    pts.lemma_multiset_has_no_duplicates_conv();
    assert forall|x: usize| pts.contains(x) implies (x as nat) < n by {
        assert(pts.to_multiset().count(x) > 0);
        assert(full.to_multiset().count(x) > 0);
        assert(full.contains(x));
        let i = choose|i: int| 0 <= i < full.len() && full[i] == x;
        assert(full[i] == i as usize);
    }
}

impl ANNIndex {
    /// Per-tree quota traversal. Inserts up to `n` of the tree's indices
    /// into the shared candidate set and reports how many leaf slots it
    /// visited: at a leaf, up to `n` of the stored indices in stored
    /// order; at an inner node, first the child on the query's side of the
    /// plane, then — only on shortfall — the other child for the
    /// remainder. A tree holding `n` or more indices always fills its
    /// quota.
    fn tree_result(
        query: &Vector,
        n: i32,
        tree: &Node,
        candidates: &mut Vec<usize>,
        np: Ghost<nat>,
    ) -> (r: i32)
        requires
            n >= 1,
            query.valid(),
            tree.wf(query@.len(), np@),
            tree.points().no_duplicates(),
            old(candidates)@.no_duplicates(),
        ensures
            0 <= r <= n,
            r as int == vstd::math::min(n as int, tree.points().len() as int),
            final(candidates)@.no_duplicates(),
            old(candidates)@.is_prefix_of(final(candidates)@),
            forall|x: usize| #[trigger] final(candidates)@.contains(x) ==> old(
                candidates,
            )@.contains(x) || tree.points().contains(x),
            (forall|x: usize| #[trigger] tree.points().contains(x) ==> !old(candidates)@.contains(
                x,
            )) ==> final(candidates)@.len() == old(candidates)@.len() + r,
            (tree is Inner && tree.matching_child(query@).points().len() >= n) ==> (forall|
                x: usize,
            |
                #[trigger] final(candidates)@.contains(x) ==> old(candidates)@.contains(x)
                    || tree.matching_child(query@).points().contains(x)),
        decreases *tree,
    {
        match tree {
            Node::Leaf(l) => {
                proof {
                    assert(tree.points() == l.indices@);
                }
                let leaf_len = l.indices.len();
                let count = if (n as usize) <= leaf_len {
                    n as usize
                } else {
                    leaf_len
                };
                let ghost old0 = candidates@;
                let mut i: usize = 0;
                while i < count
                    invariant
                        count <= l.indices@.len(),
                        l.indices@.no_duplicates(),
                        candidates@.no_duplicates(),
                        old0.is_prefix_of(candidates@),
                        0 <= i <= count,
                        forall|x: usize| candidates@.contains(x) ==> old0.contains(x)
                            || l.indices@.subrange(0, i as int).contains(x),
                        forall|x: usize| old0.contains(x) ==> candidates@.contains(x),
                        (forall|x: usize| l.indices@.contains(x) ==> !old0.contains(x))
                            ==> candidates@.len() == old0.len() + i,
                    decreases count - i,
                {
                    let idx = l.indices[i];
                    let ghost pre = candidates@;
                    insert_candidate(candidates, idx);
                    proof {
                        assert(l.indices@.subrange(0, i + 1) == l.indices@.subrange(
                            0,
                            i as int,
                        ).push(l.indices@[i as int]));
                        assert forall|x: usize| pre.contains(x) implies candidates@.contains(x) by {
                            let j = choose|j: int| 0 <= j < pre.len() && pre[j] == x;
                            assert(candidates@[j] == x);
                        }
                        assert forall|x: usize| candidates@.contains(x) implies old0.contains(x)
                            || l.indices@.subrange(0, i + 1).contains(x) by {
                            if pre.contains(x) {
                                if !old0.contains(x) {
                                    assert(l.indices@.subrange(0, i as int).contains(x));
                                    let j = choose|j: int|
                                        0 <= j < i && l.indices@.subrange(0, i as int)[j] == x;
                                    assert(l.indices@.subrange(0, i + 1)[j] == x);
                                }
                            } else {
                                assert(candidates@ == pre.push(idx));
                                assert(x == idx);
                                assert(l.indices@.subrange(0, i + 1)[i as int] == idx);
                            }
                        }
                        if forall|x: usize| l.indices@.contains(x) ==> !old0.contains(x) {
                            assert(l.indices@[i as int] == idx);
                            assert(l.indices@.contains(idx));
                            assert(!old0.contains(idx));
                            if pre.contains(idx) {
                                assert(l.indices@.subrange(0, i as int).contains(idx));
                                let j = choose|j: int|
                                    0 <= j < i && l.indices@.subrange(0, i as int)[j] == idx;
                                assert(l.indices@[j] == idx);
                                assert(false);
                            }
                            assert(candidates@ == pre.push(idx));
                        }
                    }
                    i = i + 1;
                }
                proof {
                    assert forall|x: usize| candidates@.contains(x) implies old(
                        candidates,
                    )@.contains(x) || tree.points().contains(x) by {
                        if !old0.contains(x) {
                            assert(l.indices@.subrange(0, count as int).contains(x));
                            let j = choose|j: int|
                                0 <= j < count && l.indices@.subrange(0, count as int)[j] == x;
                            assert(l.indices@[j] == x);
                            assert(l.indices@.contains(x));
                        }
                    }
                }
                count as i32
            },
            Node::Inner(inner) => {
                proof {
                    lemma_concat_no_dup_parts(
                        inner.left_node.points(),
                        inner.right_node.points(),
                    );
                    lemma_concat_contains(inner.left_node.points(), inner.right_node.points());
                }
                let above = inner.hyperplane.point_is_above(query);
                let (main, backup) = if above {
                    (&inner.right_node, &inner.left_node)
                } else {
                    (&inner.left_node, &inner.right_node)
                };
                proof {
                    assert(*main == tree.matching_child(query@));
                }
                let ghost old0 = candidates@;
                let k = Self::tree_result(query, n, main, candidates, np);
                if k < n {
                    let ghost mid = candidates@;
                    let k2 = Self::tree_result(query, n - k, backup, candidates, np);
                    proof {
                        assert(old0.is_prefix_of(final(candidates)@)) by {
                            assert forall|j: int| 0 <= j < old0.len() implies candidates@[j]
                                == old0[j] by {
                                assert(mid[j] == old0[j]);
                            }
                            assert(candidates@.subrange(0, old0.len() as int) =~= old0);
                        }
                        assert forall|x: usize| candidates@.contains(x) implies old0.contains(x)
                            || tree.points().contains(x) by {
                            if !old0.contains(x) {
                                if mid.contains(x) {
                                    assert(main.points().contains(x));
                                } else {
                                    assert(backup.points().contains(x));
                                }
                            }
                        }
                        if forall|x: usize| tree.points().contains(x) ==> !old0.contains(x) {
                            assert forall|x: usize| main.points().contains(x) implies !old0.contains(
                                x,
                            ) by {
                                assert(tree.points().contains(x));
                            }
                            assert(mid.len() == old0.len() + k);
                            assert forall|x: usize| backup.points().contains(x) implies !mid.contains(
                                x,
                            ) by {
                                assert(tree.points().contains(x));
                                assert(!old0.contains(x));
                                if main.points().contains(x) {
                                    assert(false);
                                }
                            }
                            assert(candidates@.len() == mid.len() + k2);
                        }
                    }
                    k + k2
                } else {
                    k
                }
            },
        }
    }
}

impl ANNIndex {
    /// Builds the forest. The inputs are rejected with `InvalidInput` when
    /// the point set is empty, the tree count or leaf-size threshold is
    /// not positive, or the points do not all share one dimension.
    /// Otherwise the points are deduplicated and `num_trees` trees are
    /// built independently over the whole deduplicated index set, sampling
    /// from a generator seeded with `seed`, so equal seeds give equal
    /// forests.
    pub fn build_index(
        num_trees: i32,
        max_size: i32,
        vecs: &Vec<Vector>,
        vec_ids: &Vec<i32>,
        seed: u64,
    ) -> (r: Result<ANNIndex, Error>)
        requires
            vecs@.len() == vec_ids@.len(),
            forall|i: int| 0 <= i < vecs@.len() ==> (#[trigger] vecs@[i]).valid(),
        ensures
            r is Ok <==> (num_trees >= 1 && max_size >= 1 && vecs@.len() >= 1 && (forall|i: int|
                0 <= i < vecs@.len() ==> (#[trigger] vecs@[i])@.len() == vecs@[0]@.len())),
            r is Err ==> r == Err::<ANNIndex, Error>(Error::InvalidInput),
            r matches Ok(idx) ==> {
                &&& idx.wf()
                &&& idx.num_trees() == num_trees
                &&& 1 <= idx.num_points() <= vecs@.len()
                &&& idx.spec_dim() == vecs@[0]@.len()
                &&& idx.trees_leaves_bounded(max_size as int)
                &&& idx.points_view() == dedup_keys(views_of(vecs@))
                &&& idx.ids_view().len() == kept_indices(views_of(vecs@)).len()
                &&& forall|k: int| 0 <= k < idx.ids_view().len() ==> #[trigger] idx.ids_view()[k]
                    == vec_ids@[kept_indices(views_of(vecs@))[k]]
            },
    {
        if num_trees < 1 || max_size < 1 || vecs.len() == 0 {
            return Err(Error::InvalidInput);
        }
        let dim = vecs[0].dim();
        let nv = vecs.len();
        let mut i: usize = 1;
        while i < nv
            invariant
                nv == vecs@.len(),
                1 <= i <= nv,
                vecs@.len() >= 1,
                dim == vecs@[0]@.len(),
                forall|j: int| 0 <= j < i ==> (#[trigger] vecs@[j])@.len() == dim,
            decreases nv - i,
        {
            if vecs[i].dim() != dim {
                return Err(Error::InvalidInput);
            }
            i = i + 1;
        }
        let ghost keys = views_of(vecs@);
        let mut unique_vecs: Vec<Vector> = Vec::new();
        let mut ids: Vec<i32> = Vec::new();
        deduplicate(vecs, vec_ids, &mut unique_vecs, &mut ids);
        proof {
            lemma_kept_upto_props(keys, vecs@.len() as int);
            lemma_kept_upto_nonempty(keys, vecs@.len() as int);
            assert forall|k: int| 0 <= k < unique_vecs@.len() implies (
            #[trigger] unique_vecs@[k]).valid() && unique_vecs@[k]@.len() == dim by {
                let kp = kept_indices(keys)[k];
                assert(keys[kp] == vecs@[kp]@);
                assert(unique_vecs@[k]@ == vecs@[kp]@);
                assert(vecs@[kp].valid());
            }
            assert(views_of(unique_vecs@) =~= dedup_keys(keys));
        }
        let n_points = unique_vecs.len();
        let mut all_indexes: Vec<usize> = Vec::new();
        let mut j: usize = 0;
        while j < n_points
            invariant
                0 <= j <= n_points,
                all_indexes@.len() == j,
                forall|m: int| 0 <= m < j ==> (#[trigger] all_indexes@[m]) == m as usize,
            decreases n_points - j,
        {
            all_indexes.push(j);
            j = j + 1;
        }
        proof {
            assert(all_indexes@ =~= all_points_seq(unique_vecs@.len()));
        }
        let mut rng = rng_from_seed(seed);
        let mut trees: Vec<Node> = Vec::new();
        let nt = num_trees as usize;
        let mut t: usize = 0;
        while t < nt
            invariant
                0 <= t <= nt,
                nt == num_trees as usize,
                num_trees >= 1,
                max_size >= 1,
                trees@.len() == t,
                keys == views_of(vecs@),
                n_points == unique_vecs@.len(),
                n_points >= 1,
                n_points <= vecs@.len(),
                ids@.len() == kept_indices(keys).len(),
                forall|k: int| 0 <= k < ids@.len() ==> #[trigger] ids@[k] == vec_ids@[kept_indices(
                    keys,
                )[k]],
                views_of(unique_vecs@) == dedup_keys(keys),
                ids@.len() == unique_vecs@.len(),
                dim == vecs@[0]@.len(),
                dim == unique_vecs@[0]@.len(),
                vectors_wf(unique_vecs@, dim as nat),
                all_indexes@ == all_points_seq(unique_vecs@.len()),
                forall|m: int| 0 <= m < all_indexes@.len() ==> (#[trigger] all_indexes@[m])
                    < unique_vecs@.len(),
                forall|s: int| 0 <= s < t ==> (#[trigger] trees@[s]).wf(
                    dim as nat,
                    unique_vecs@.len(),
                ),
                forall|s: int| 0 <= s < t ==> (#[trigger] trees@[s]).points().to_multiset()
                    == all_points_seq(unique_vecs@.len()).to_multiset(),
                forall|s: int| 0 <= s < t ==> (#[trigger] trees@[s]).leaves_bounded(
                    max_size as int,
                    unique_vecs@,
                ),
                forall|s: int| 0 <= s < t ==> (#[trigger] trees@[s]).respects_planes(
                    unique_vecs@,
                ),
            decreases nt - t,
        {
            let tree = Self::build_a_tree(max_size, &all_indexes, &unique_vecs, &mut rng);
            trees.push(tree);
            t = t + 1;
        }
        Ok(ANNIndex { trees, ids, values: unique_vecs })
    }
}

/// Exact re-ranking, the final step of every search: pairs each candidate
/// index with its true squared distance to the query, sorts ascending,
/// cuts to `limit`, and maps the surviving internal indices to external
/// ids. Each returned pair names a distinct candidate, and every candidate
/// left out lies at least as far from the query as the last returned pair.
fn rank_candidates(
    candidates: Vec<usize>,
    vectors: &Vec<Vector>,
    ids: &Vec<i32>,
    query: &Vector,
    limit: usize,
) -> (r: Vec<(i32, u64)>)
    requires
        query.valid(),
        vectors_wf(vectors@, query@.len()),
        ids@.len() == vectors@.len(),
        candidates@.no_duplicates(),
        forall|j: int| 0 <= j < candidates@.len() ==> (#[trigger] candidates@[j] as nat)
            < vectors@.len(),
    ensures
        r@.len() == vstd::math::min(limit as int, candidates@.len() as int),
        forall|i: int, j: int| 0 <= i <= j < r@.len() ==> (#[trigger] r@[i]).1 <= (
        #[trigger] r@[j]).1,
        exists|sel: Seq<int>|
            {
                &&& (#[trigger] sel.no_duplicates())
                &&& sel.len() == r@.len()
                &&& (forall|i: int|
                    0 <= i < r@.len() ==> 0 <= #[trigger] sel[i] < vectors@.len() && r@[i].0
                        == ids@[sel[i]] && r@[i].1 == spec_sq_dist(
                        views_of(vectors@)[sel[i]],
                        query@,
                    ))
                &&& (forall|i: int|
                    0 <= i < r@.len() ==> indices_as_ints(candidates@).contains(#[trigger] sel[i]))
                &&& (forall|j: int|
                    (0 <= j < candidates@.len() && !sel.contains(
                        #[trigger] candidates@[j] as int,
                    )) ==> (r@.len() == 0 || spec_sq_dist(
                        views_of(vectors@)[candidates@[j] as int],
                        query@,
                    ) >= r@[r@.len() - 1].1))
            },
{
    let ghost nv = vectors@.len();
    let ghost pv = views_of(vectors@);
    let n_candidates = candidates.len();
    let mut by_distance: Vec<(usize, u64)> = Vec::new();
    let mut c: usize = 0;
    while c < n_candidates
        invariant
            query.valid(),
            vectors_wf(vectors@, query@.len()),
            nv == vectors@.len(),
            pv == views_of(vectors@),
            n_candidates == candidates@.len(),
            candidates@.no_duplicates(),
            forall|j: int| 0 <= j < candidates@.len() ==> (#[trigger] candidates@[j] as nat) < nv,
            0 <= c <= n_candidates,
            by_distance@.len() == c,
            forall|j: int| 0 <= j < c ==> (#[trigger] by_distance@[j]).0 == candidates@[j] && (
            by_distance@[j].1 as int) == spec_sq_dist(pv[by_distance@[j].0 as int], query@),
        decreases n_candidates - c,
    {
        let idx = candidates[c];
        let d = vectors[idx].sq_euc_dis(query);
        by_distance.push((idx, d));
        c = c + 1;
    }
    let sorted_pairs = sorted_by_distance(by_distance);
    proof {
        broadcast use vstd::seq_lib::group_to_multiset_ensures;

        assert(sorted_pairs@.to_multiset().len() == sorted_pairs@.len());
        assert(by_distance@.to_multiset().len() == by_distance@.len());
        assert(sorted_pairs@.len() == candidates@.len());
        assert forall|x: (usize, u64)| #[trigger] sorted_pairs@.contains(x) implies (x.0 as nat)
            < nv && (x.1 as int) == spec_sq_dist(pv[x.0 as int], query@) && candidates@.contains(
            x.0,
        ) by {
            assert(sorted_pairs@.to_multiset().count(x) > 0);
            assert(by_distance@.to_multiset().count(x) > 0);
            assert(by_distance@.contains(x));
            let j = choose|j: int| 0 <= j < by_distance@.len() && by_distance@[j] == x;
            assert(by_distance@[j].0 == candidates@[j]);
            assert(candidates@[j] == x.0);
        }
        assert(by_distance@.no_duplicates()) by {
            assert forall|i: int, j: int|
                0 <= i < by_distance@.len() && 0 <= j < by_distance@.len() && i
                    != j implies by_distance@[i] != by_distance@[j] by {
                assert(by_distance@[i].0 == candidates@[i]);
                assert(by_distance@[j].0 == candidates@[j]);
            }
        }
        by_distance@.lemma_multiset_has_no_duplicates();
        assert forall|x: (usize, u64)|
            sorted_pairs@.to_multiset().contains(x) implies sorted_pairs@.to_multiset().count(x)
            == 1 by {
            assert(by_distance@.to_multiset().count(x) > 0);
            assert(by_distance@.contains(x));
        }
        sorted_pairs@.lemma_multiset_has_no_duplicates_conv();
        assert forall|i: int, j: int|
            0 <= i < sorted_pairs@.len() && 0 <= j < sorted_pairs@.len() && i
                != j implies (#[trigger] sorted_pairs@[i]).0 != (#[trigger] sorted_pairs@[j]).0 by {
            assert(sorted_pairs@.contains(sorted_pairs@[i]));
            assert(sorted_pairs@.contains(sorted_pairs@[j]));
            if sorted_pairs@[i].0 == sorted_pairs@[j].0 {
                assert(sorted_pairs@[i].1 == sorted_pairs@[j].1);
                assert(sorted_pairs@[i] == sorted_pairs@[j]);
            }
        }
    }
    let mut top_pairs = sorted_pairs;
    top_pairs.truncate(limit);
    proof {
        if limit <= candidates@.len() {
            assert(top_pairs@ == sorted_pairs@.subrange(0, limit as int));
        }
        assert forall|i: int| 0 <= i < top_pairs@.len() implies sorted_pairs@.contains(
            #[trigger] top_pairs@[i],
        ) by {
            assert(top_pairs@[i] == sorted_pairs@[i]);
        }
    }
    let kcount = top_pairs.len();
    let mut results: Vec<(i32, u64)> = Vec::new();
    let mut m: usize = 0;
    while m < kcount
        invariant
            nv == vectors@.len(),
            ids@.len() == vectors@.len(),
            kcount == top_pairs@.len(),
            forall|i: int| 0 <= i < top_pairs@.len() ==> ((#[trigger] top_pairs@[i]).0 as nat)
                < nv,
            0 <= m <= kcount,
            results@.len() == m,
            forall|j: int| 0 <= j < m ==> (#[trigger] results@[j]).0 == ids@[(top_pairs@[j].0)
                as int] && results@[j].1 == top_pairs@[j].1,
        decreases kcount - m,
    {
        let p0 = top_pairs[m].0;
        let d1 = top_pairs[m].1;
        results.push((ids[p0], d1));
        m = m + 1;
    }
    proof {
        let sel = Seq::new(results@.len(), |i: int| top_pairs@[i].0 as int);
        assert(sel.no_duplicates()) by {
            assert forall|i: int, j: int|
                0 <= i < sel.len() && 0 <= j < sel.len() && i != j implies sel[i] != sel[j] by {
                assert(top_pairs@[i] == sorted_pairs@[i]);
                assert(top_pairs@[j] == sorted_pairs@[j]);
            }
        }
        assert forall|i: int|
            0 <= i < results@.len() implies 0 <= #[trigger] sel[i] < nv && results@[i].0
            == ids@[sel[i]] && results@[i].1 == spec_sq_dist(pv[sel[i]], query@) by {
            assert(sorted_pairs@.contains(top_pairs@[i]));
        }
        assert forall|i: int|
            0 <= i < results@.len() implies indices_as_ints(candidates@).contains(
            #[trigger] sel[i],
        ) by {
            assert(sorted_pairs@.contains(top_pairs@[i]));
            assert(candidates@.contains(top_pairs@[i].0));
            let j = choose|j: int| 0 <= j < candidates@.len() && candidates@[j] == top_pairs@[i].0;
            assert(indices_as_ints(candidates@)[j] == sel[i]);
        }
        assert forall|i: int, j: int|
            0 <= i <= j < results@.len() implies (#[trigger] results@[i]).1 <= (
        #[trigger] results@[j]).1 by {
            assert(top_pairs@[i] == sorted_pairs@[i]);
            assert(top_pairs@[j] == sorted_pairs@[j]);
        }
        assert forall|j: int|
            (0 <= j < candidates@.len() && !sel.contains(#[trigger] candidates@[j] as int)
                && results@.len() > 0) implies spec_sq_dist(pv[candidates@[j] as int], query@)
            >= results@[results@.len() - 1].1 by {
            broadcast use vstd::seq_lib::group_to_multiset_ensures;

            let p = by_distance@[j];
            assert(by_distance@.contains(p));
            assert(by_distance@.to_multiset().count(p) > 0);
            assert(sorted_pairs@.to_multiset().count(p) > 0);
            assert(sorted_pairs@.contains(p));
            let pos = choose|pos: int|
                0 <= pos < sorted_pairs@.len() && sorted_pairs@[pos] == p;
            if pos < results@.len() {
                assert(top_pairs@[pos] == sorted_pairs@[pos]);
                assert(sel[pos] == candidates@[j] as int);
                assert(sel.contains(candidates@[j] as int));
                assert(false);
            }
            assert(sorted_pairs@[results@.len() - 1].1 <= sorted_pairs@[pos].1);
            assert(results@[results@.len() - 1].1 == top_pairs@[results@.len() - 1].1);
            assert(top_pairs@[results@.len() - 1] == sorted_pairs@[results@.len() - 1]);
        }
    }
    results
}

/// The results are a true top-`k` answer: beyond the shape that
/// `valid_search_results` fixes, every point that was not selected lies at
/// least as far from the query as the last returned pair.
pub open spec fn true_nearest_results(
    results: Seq<(i32, u64)>,
    ids: Seq<i32>,
    points: Seq<Seq<i64>>,
    query: Seq<i64>,
    k: int,
) -> bool {
    &&& results.len() == vstd::math::min(k, points.len() as int)
    &&& (forall|i: int, j: int|
        0 <= i <= j < results.len() ==> (#[trigger] results[i]).1 <= (#[trigger] results[j]).1)
    &&& exists|sel: Seq<int>|
        {
            &&& (#[trigger] sel.no_duplicates())
            &&& sel.len() == results.len()
            &&& (forall|i: int|
                0 <= i < results.len() ==> 0 <= #[trigger] sel[i] < points.len() && results[i].0
                    == ids[sel[i]] && results[i].1 == spec_sq_dist(points[sel[i]], query))
            &&& (forall|p: int|
                (0 <= p < points.len() && !sel.contains(p)) ==> (results.len() == 0
                    || spec_sq_dist(#[trigger] points[p], query) >= results[results.len() - 1].1))
        }
}

/// The exhaustive baseline: computes the exact squared distance from the
/// query to every point, sorts ascending, and returns the first `k`
/// `(id, squared distance)` pairs — the true nearest neighbors.
pub fn linear_search(query: &Vector, vectors: &Vec<Vector>, ids: &Vec<i32>, k: usize) -> (r: Vec<
    (i32, u64),
>)
    requires
        query.valid(),
        vectors_wf(vectors@, query@.len()),
        ids@.len() == vectors@.len(),
    ensures
        valid_search_results(r@, ids@, views_of(vectors@), query@, k as int),
        true_nearest_results(r@, ids@, views_of(vectors@), query@, k as int),
{
    let n = vectors.len();
    let mut all_indexes: Vec<usize> = Vec::new();
    let mut j: usize = 0;
    while j < n
        invariant
            0 <= j <= n,
            all_indexes@.len() == j,
            forall|m: int| 0 <= m < j ==> (#[trigger] all_indexes@[m]) == m as usize,
        decreases n - j,
    {
        all_indexes.push(j);
        j = j + 1;
    }
    proof {
        assert(all_indexes@.no_duplicates());
    }
    let ghost cands = all_indexes@;
    let r = rank_candidates(all_indexes, vectors, ids, query, k);
    proof {
        let pv = views_of(vectors@);
        assert(valid_search_results(r@, ids@, pv, query@, k as int));
        let sel = choose|sel: Seq<int>|
            {
                &&& (#[trigger] sel.no_duplicates())
                &&& sel.len() == r@.len()
                &&& (forall|i: int|
                    0 <= i < r@.len() ==> 0 <= #[trigger] sel[i] < vectors@.len() && r@[i].0
                        == ids@[sel[i]] && r@[i].1 == spec_sq_dist(pv[sel[i]], query@))
                &&& (forall|i: int|
                    0 <= i < r@.len() ==> indices_as_ints(cands).contains(#[trigger] sel[i]))
                &&& (forall|j: int|
                    (0 <= j < cands.len() && !sel.contains(#[trigger] cands[j] as int)) ==> (
                    r@.len() == 0 || spec_sq_dist(pv[cands[j] as int], query@) >= r@[r@.len()
                        - 1].1))
            };
        assert forall|p: int| (0 <= p < pv.len() && !sel.contains(p)) implies (r@.len() == 0
            || spec_sq_dist(#[trigger] pv[p], query@) >= r@[r@.len() - 1].1) by {
            assert(cands[p] == p as usize);
        }
        assert(true_nearest_results(r@, ids@, pv, query@, k as int));
    }
    r
}

/// What a successful search returns: exactly `min(top_k, points held)`
/// pairs, in non-decreasing order of squared distance, each pairing the
/// external id of a distinct indexed point with that point's exact squared
/// distance to the query.
pub open spec fn valid_search_results(
    results: Seq<(i32, u64)>,
    ids: Seq<i32>,
    points: Seq<Seq<i64>>,
    query: Seq<i64>,
    top_k: int,
) -> bool {
    &&& results.len() == vstd::math::min(top_k, points.len() as int)
    &&& (forall|i: int, j: int|
        0 <= i <= j < results.len() ==> (#[trigger] results[i]).1 <= (#[trigger] results[j]).1)
    &&& exists|sel: Seq<int>|
        {
            &&& (#[trigger] sel.no_duplicates())
            &&& sel.len() == results.len()
            &&& forall|i: int|
                0 <= i < results.len() ==> 0 <= #[trigger] sel[i] < points.len() && results[i].0
                    == ids[sel[i]] && results[i].1 == spec_sq_dist(points[sel[i]], query)
        }
}

/// The re-ranking optimality of an approximate search: the returned pairs
/// were chosen from a duplicate-free collected candidate set holding at
/// least `min(top_k, points)` indices, and every candidate left out of the
/// answer lies at least as far from the query as the last returned pair.
/// Which points become candidates is the partitioning's choice; their rank
/// never is.
pub open spec fn candidate_optimal_results(
    results: Seq<(i32, u64)>,
    ids: Seq<i32>,
    points: Seq<Seq<i64>>,
    query: Seq<i64>,
    top_k: int,
) -> bool {
    exists|cand: Seq<int>, sel: Seq<int>|
        #![trigger cand.no_duplicates(), sel.no_duplicates()]
        {
            &&& cand.no_duplicates()
            &&& sel.no_duplicates()
            &&& (forall|j: int| 0 <= j < cand.len() ==> 0 <= #[trigger] cand[j] < points.len())
            &&& cand.len() >= vstd::math::min(top_k, points.len() as int)
            &&& sel.len() == results.len()
            &&& (forall|i: int|
                0 <= i < results.len() ==> 0 <= #[trigger] sel[i] < points.len() && cand.contains(
                    sel[i],
                ) && results[i].0 == ids[sel[i]] && results[i].1 == spec_sq_dist(
                    points[sel[i]],
                    query,
                ))
            &&& (forall|j: int|
                (0 <= j < cand.len() && !sel.contains(#[trigger] cand[j])) ==> (results.len() == 0
                    || spec_sq_dist(points[cand[j]], query) >= results[results.len() - 1].1))
        }
}

impl ANNIndex {
    /// Quota-based approximate search. Every tree contributes up to
    /// `top_k` candidate indices into one shared set; the exact squared
    /// distance is then computed for every candidate, the candidates are
    /// sorted by ascending distance, cut to `top_k`, and mapped back to
    /// external ids. Fails with `EmptyIndex` on an index without points
    /// and with `InvalidInput` on a query of the wrong dimension.
    pub fn search_approximate(&self, query: &Vector, top_k: i32) -> (r: Result<
        Vec<(i32, u64)>,
        Error,
    >)
        requires
            self.wf(),
            query.valid(),
            top_k >= 1,
        ensures
            r is Ok <==> (self.num_points() > 0 && query@.len() == self.spec_dim()),
            (r == Err::<Vec<(i32, u64)>, Error>(Error::EmptyIndex)) <==> self.num_points() == 0,
            (r == Err::<Vec<(i32, u64)>, Error>(Error::InvalidInput)) <==> (self.num_points() > 0
                && query@.len() != self.spec_dim()),
            r matches Ok(results) ==> valid_search_results(
                results@,
                self.ids_view(),
                self.points_view(),
                query@,
                top_k as int,
            ),
            r matches Ok(results) ==> candidate_optimal_results(
                results@,
                self.ids_view(),
                self.points_view(),
                query@,
                top_k as int,
            ),
    {
        let np = self.values.len();
        if np == 0 {
            return Err(Error::EmptyIndex);
        }
        if query.dim() != self.values[0].dim() {
            return Err(Error::InvalidInput);
        }
        let ghost npg = self.values@.len();
        let mut candidates: Vec<usize> = Vec::new();
        let n_trees = self.trees.len();
        let mut t: usize = 0;
        while t < n_trees
            invariant
                self.wf(),
                query.valid(),
                top_k >= 1,
                np == self.values@.len(),
                npg == self.values@.len(),
                np >= 1,
                query@.len() == self.spec_dim(),
                n_trees == self.trees@.len(),
                0 <= t <= n_trees,
                candidates@.no_duplicates(),
                forall|j: int| 0 <= j < candidates@.len() ==> (#[trigger] candidates@[j] as nat)
                    < npg,
                t == 0 ==> candidates@.len() == 0,
                t >= 1 ==> candidates@.len() >= vstd::math::min(top_k as int, npg as int),
            decreases n_trees - t,
        {
            let ghost pre = candidates@;
            proof {
                lemma_full_multiset_shape(self.trees@[t as int].points(), npg);
            }
            let found = Self::tree_result(
                query,
                top_k,
                &self.trees[t],
                &mut candidates,
                Ghost(npg),
            );
            proof {
                assert forall|j: int|
                    0 <= j < candidates@.len() implies (#[trigger] candidates@[j] as nat)
                    < npg by {
                    assert(candidates@.contains(candidates@[j]));
                    if !pre.contains(candidates@[j]) {
                        assert(self.trees@[t as int].points().contains(candidates@[j]));
                    } else {
                        let m = choose|m: int| 0 <= m < pre.len() && pre[m] == candidates@[j];
                    }
                }
                if t == 0 {
                    assert(pre.len() == 0);
                    assert forall|x: usize|
                        self.trees@[t as int].points().contains(x) implies !pre.contains(x) by {
                        if pre.contains(x) {
                            let m = choose|m: int| 0 <= m < pre.len() && pre[m] == x;
                        }
                    }
                    assert(candidates@.len() == pre.len() + found);
                } else {
                    assert(pre.len() <= candidates@.len()) by {
                        assert(pre.is_prefix_of(candidates@));
                    }
                }
            }
            t = t + 1;
        }
        proof {
            lemma_unique_bounded_len(candidates@, npg);
        }
        let ghost cand_count = candidates@.len();
        let ghost cand_seq = candidates@;
        let results = rank_candidates(candidates, &self.values, &self.ids, query, top_k as usize);
        proof {
            assert(results@.len() == vstd::math::min(top_k as int, npg as int)) by {
                assert(cand_count <= npg);
                assert(cand_count >= vstd::math::min(top_k as int, npg as int));
            }
            assert(valid_search_results(
                results@,
                self.ids_view(),
                self.points_view(),
                query@,
                top_k as int,
            ));
            let sel = choose|sel: Seq<int>|
                {
                    &&& (#[trigger] sel.no_duplicates())
                    &&& sel.len() == results@.len()
                    &&& (forall|i: int|
                        0 <= i < results@.len() ==> 0 <= #[trigger] sel[i] < self.values@.len()
                            && results@[i].0 == self.ids@[sel[i]] && results@[i].1 == spec_sq_dist(
                            views_of(self.values@)[sel[i]],
                            query@,
                        ))
                    &&& (forall|i: int|
                        0 <= i < results@.len() ==> indices_as_ints(cand_seq).contains(
                            #[trigger] sel[i],
                        ))
                    &&& (forall|j: int|
                        (0 <= j < cand_seq.len() && !sel.contains(#[trigger] cand_seq[j] as int))
                            ==> (results@.len() == 0 || spec_sq_dist(
                            views_of(self.values@)[cand_seq[j] as int],
                            query@,
                        ) >= results@[results@.len() - 1].1))
                };
            let cand = indices_as_ints(cand_seq);
            assert(vstd::relations::injective(usize_to_int_fn())) by {
                assert forall|x: usize, y: usize|
                    #[trigger] usize_to_int_fn()(x) == #[trigger] usize_to_int_fn()(y) implies x
                    == y by {
                    assert(usize_to_int_fn()(x) == x as int);
                    assert(usize_to_int_fn()(y) == y as int);
                }
            }
            cand_seq.lemma_no_duplicates_injective(usize_to_int_fn());
            assert(cand.no_duplicates());
            assert forall|j: int| 0 <= j < cand.len() implies 0 <= #[trigger] cand[j]
                < self.points_view().len() by {
                assert(cand[j] == cand_seq[j] as int);
            }
            assert forall|j: int|
                (0 <= j < cand.len() && !sel.contains(#[trigger] cand[j])) implies (results@.len()
                == 0 || spec_sq_dist(self.points_view()[cand[j]], query@) >= results@[results@.len()
                - 1].1) by {
                assert(cand[j] == cand_seq[j] as int);
            }
            assert(cand.len() >= vstd::math::min(top_k as int, self.points_view().len() as int));
            assert(candidate_optimal_results(
                results@,
                self.ids_view(),
                self.points_view(),
                query@,
                top_k as int,
            ));
        }
        Ok(results)
    }
}

} // verus!
