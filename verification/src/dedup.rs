//! Exact-duplicate elimination. Before any tree is built, points that
//! match an earlier point coordinate for coordinate are dropped, together
//! with their external ids; the first occurrence survives and relative
//! order is kept. Every element's key is registered, the first included,
//! so a later duplicate of the first point is dropped like any other.

use vstd::prelude::*;

use crate::vector::{key_eq, HashKey, Vector};

verus! {

/// The coordinate sequences of a sequence of points.
pub open spec fn views_of(vs: Seq<Vector>) -> Seq<Seq<i64>> {
    vs.map_values(|v: Vector| v@)
}

/// Key `i` differs from every earlier key: its point survives
/// deduplication.
pub open spec fn is_new_key(keys: Seq<Seq<i64>>, i: int) -> bool {
    forall|j: int| 0 <= j < i ==> keys[j] != keys[i]
}

/// The positions, in order, of the first `n` keys that survive
/// deduplication.
pub open spec fn kept_upto(keys: Seq<Seq<i64>>, n: int) -> Seq<int>
    decreases n,
{
    if n <= 0 {
        Seq::empty()
    } else if is_new_key(keys, n - 1) {
        kept_upto(keys, n - 1).push(n - 1)
    } else {
        kept_upto(keys, n - 1)
    }
}

/// The positions, in order, of all keys that survive deduplication.
pub open spec fn kept_indices(keys: Seq<Seq<i64>>) -> Seq<int> {
    kept_upto(keys, keys.len() as int)
}

/// What deduplication leaves of a key sequence: the first occurrence of
/// each distinct key, in input order.
pub open spec fn dedup_keys(keys: Seq<Seq<i64>>) -> Seq<Seq<i64>> {
    kept_indices(keys).map_values(|i: int| keys[i])
}

/// The kept positions are increasing positions below `n`, and each kept
/// key differs from every key before it.
pub(crate) proof fn lemma_kept_upto_props(keys: Seq<Seq<i64>>, n: int)
    ensures
        forall|k: int| 0 <= k < kept_upto(keys, n).len() ==> 0 <= #[trigger] kept_upto(keys, n)[k]
            < n,
        forall|k1: int, k2: int|
            0 <= k1 < k2 < kept_upto(keys, n).len() ==> #[trigger] kept_upto(keys, n)[k1]
                < #[trigger] kept_upto(keys, n)[k2],
        forall|k: int| 0 <= k < kept_upto(keys, n).len() ==> is_new_key(
            keys,
            kept_upto(keys, n)[k],
        ),
        kept_upto(keys, n).len() <= (if n <= 0 { 0 } else { n }),
    decreases n,
{
    if n > 0 {
        lemma_kept_upto_props(keys, n - 1);
        let prev = kept_upto(keys, n - 1);
        let cur = kept_upto(keys, n);
        if is_new_key(keys, n - 1) {
            assert(cur == prev.push(n - 1));
            assert forall|k: int| 0 <= k < cur.len() implies 0 <= #[trigger] cur[k] < n by {
                if k < prev.len() {
                    assert(cur[k] == prev[k]);
                } else {
                    assert(cur[k] == n - 1);
                }
            }
            assert forall|k1: int, k2: int|
                0 <= k1 < k2 < cur.len() implies #[trigger] cur[k1] < #[trigger] cur[k2] by {
                if k2 < prev.len() {
                    assert(cur[k1] == prev[k1] && cur[k2] == prev[k2]);
                } else {
                    assert(cur[k1] == prev[k1] && cur[k2] == n - 1);
                }
            }
            assert forall|k: int| 0 <= k < cur.len() implies is_new_key(keys, cur[k]) by {
                if k < prev.len() {
                    assert(cur[k] == prev[k]);
                } else {
                    assert(cur[k] == n - 1);
                }
            }
        } else {
            assert(cur == prev);
        }
    }
}

/// Deduplicating a non-empty input keeps at least its first point.
pub(crate) proof fn lemma_kept_upto_nonempty(keys: Seq<Seq<i64>>, n: int)
    requires
        n >= 1,
    ensures
        kept_upto(keys, n).len() >= 1,
    decreases n,
{
    if n == 1 {
        assert(is_new_key(keys, 0));
    } else {
        lemma_kept_upto_nonempty(keys, n - 1);
    }
}

/// Deduplication leaves pairwise-distinct keys.
proof fn lemma_dedup_keys_distinct(keys: Seq<Seq<i64>>)
    ensures
        forall|k1: int, k2: int|
            0 <= k1 < k2 < dedup_keys(keys).len() ==> #[trigger] dedup_keys(keys)[k1]
                != #[trigger] dedup_keys(keys)[k2],
{
    lemma_kept_upto_props(keys, keys.len() as int);
    assert forall|k1: int, k2: int|
        0 <= k1 < k2 < dedup_keys(keys).len() implies #[trigger] dedup_keys(keys)[k1]
        != #[trigger] dedup_keys(keys)[k2] by {
        let kept = kept_indices(keys);
        assert(is_new_key(keys, kept[k2]));
        assert(keys[kept[k1]] != keys[kept[k2]]);
    }
}

/// On pairwise-distinct keys deduplication keeps every position: it is the
/// identity.
proof fn lemma_kept_upto_distinct_identity(keys: Seq<Seq<i64>>, n: int)
    requires
        n <= keys.len(),
        forall|i1: int, i2: int| 0 <= i1 < i2 < keys.len() ==> keys[i1] != keys[i2],
    ensures
        kept_upto(keys, n) =~= Seq::new(if n <= 0 { 0 } else { n as nat }, |i: int| i),
    decreases n,
{
    if n > 0 {
        lemma_kept_upto_distinct_identity(keys, n - 1);
        assert(is_new_key(keys, n - 1));
    }
}

/// Dedup idempotence: deduplicating the output of deduplication removes
/// nothing further — every position is kept, so the points and their ids
/// come through unchanged.
pub proof fn lemma_dedup_idempotent(keys: Seq<Seq<i64>>)
    ensures
        kept_indices(dedup_keys(keys)) =~= Seq::new(dedup_keys(keys).len(), |i: int| i),
        dedup_keys(dedup_keys(keys)) =~= dedup_keys(keys),
{
    let once = dedup_keys(keys);
    lemma_dedup_keys_distinct(keys);
    lemma_kept_upto_distinct_identity(once, once.len() as int);
    assert(dedup_keys(once) =~= once);
}

/// Whether one of the keys seen so far matches `k` exactly.
fn contains_key(seen: &Vec<HashKey>, k: &HashKey) -> (r: bool)
    ensures
        r == exists|j: int| 0 <= j < seen@.len() && #[trigger] seen@[j]@ == k@,
{
    let n = seen.len();
    let mut i: usize = 0;
    while i < n
        invariant
            n == seen@.len(),
            0 <= i <= n,
            forall|j: int| 0 <= j < i ==> #[trigger] seen@[j]@ != k@,
        decreases n - i,
    {
        if key_eq(&seen[i], k) {
            return true;
        }
        i = i + 1;
    }
    false
}

/// Walks the input in order and appends to `dedup_vectors` and
/// `ids_of_dedup_vectors` exactly the points whose coordinates were not
/// seen earlier, with their ids; first occurrence wins and relative order
/// is kept.
pub fn deduplicate(
    vectors: &Vec<Vector>,
    ids: &Vec<i32>,
    dedup_vectors: &mut Vec<Vector>,
    ids_of_dedup_vectors: &mut Vec<i32>,
)
    requires
        vectors@.len() == ids@.len(),
        old(dedup_vectors)@.len() == 0,
        old(ids_of_dedup_vectors)@.len() == 0,
    ensures
        final(dedup_vectors)@.len() == kept_indices(views_of(vectors@)).len(),
        final(ids_of_dedup_vectors)@.len() == kept_indices(views_of(vectors@)).len(),
        forall|k: int|
            0 <= k < kept_indices(views_of(vectors@)).len()
                ==> #[trigger] final(dedup_vectors)@[k]@
                == views_of(vectors@)[kept_indices(views_of(vectors@))[k]],
        forall|k: int|
            0 <= k < kept_indices(views_of(vectors@)).len()
                ==> #[trigger] final(ids_of_dedup_vectors)@[k]
                == ids@[kept_indices(views_of(vectors@))[k]],
{
    let ghost keys = views_of(vectors@);
    let n = vectors.len();
    let mut hashes_seen: Vec<HashKey> = Vec::new();
    let mut i: usize = 0;
    while i < n
        invariant
            n == vectors@.len(),
            n == ids@.len(),
            keys == views_of(vectors@),
            0 <= i <= n,
            // the seen keys are exactly the keys of the prefix walked so far
            forall|j: int| 0 <= j < i ==> exists|m: int|
                0 <= m < hashes_seen@.len() && (#[trigger] hashes_seen@[m])@ == #[trigger] keys[j],
            forall|m: int| 0 <= m < hashes_seen@.len() ==> exists|j: int|
                0 <= j < i && (#[trigger] hashes_seen@[m])@ == #[trigger] keys[j],
            // the outputs mirror the kept positions of the prefix
            dedup_vectors@.len() == kept_upto(keys, i as int).len(),
            ids_of_dedup_vectors@.len() == kept_upto(keys, i as int).len(),
            forall|k: int| 0 <= k < kept_upto(keys, i as int).len() ==> #[trigger] dedup_vectors@[k]@
                == keys[kept_upto(keys, i as int)[k]],
            forall|k: int| 0 <= k < kept_upto(keys, i as int).len()
                ==> #[trigger] ids_of_dedup_vectors@[k] == ids@[kept_upto(keys, i as int)[k]],
        decreases n - i,
    {
        proof {
            lemma_kept_upto_props(keys, i + 1);
            assert(keys[i as int] == vectors@[i as int]@);
        }
        let ghost old_seen = hashes_seen@;
        let hash_key = vectors[i].to_hashkey();
        if !contains_key(&hashes_seen, &hash_key) {
            proof {
                assert forall|j: int| 0 <= j < i implies keys[j] != keys[i as int] by {
                    assert(exists|m: int|
                        0 <= m < old_seen.len() && (#[trigger] old_seen[m])@ == keys[j]);
                }
                assert(is_new_key(keys, i as int));
                assert(kept_upto(keys, i + 1) == kept_upto(keys, i as int).push(i as int));
            }
            hashes_seen.push(hash_key);
            dedup_vectors.push(vectors[i].copy_point());
            ids_of_dedup_vectors.push(ids[i]);
            proof {
                assert forall|j: int| 0 <= j < i + 1 implies exists|m: int|
                    0 <= m < hashes_seen@.len() && (#[trigger] hashes_seen@[m])@
                        == #[trigger] keys[j] by {
                    if j < i {
                        let m = choose|m: int|
                            0 <= m < old_seen.len() && (#[trigger] old_seen[m])@ == keys[j];
                        assert(hashes_seen@[m]@ == keys[j]);
                    } else {
                        assert(hashes_seen@[old_seen.len() as int]@ == keys[j]);
                    }
                }
                assert forall|m: int| 0 <= m < hashes_seen@.len() implies exists|j: int|
                    0 <= j < i + 1 && (#[trigger] hashes_seen@[m])@ == #[trigger] keys[j] by {
                    if m < old_seen.len() {
                        let j = choose|j: int|
                            0 <= j < i && (old_seen[m])@ == #[trigger] keys[j];
                        assert(hashes_seen@[m]@ == keys[j]);
                    } else {
                        assert(hashes_seen@[m]@ == keys[i as int]);
                    }
                }
            }
        } else {
            proof {
                let m = choose|m: int|
                    0 <= m < hashes_seen@.len() && (#[trigger] hashes_seen@[m])@ == keys[i as int];
                assert(exists|j: int| 0 <= j < i && hashes_seen@[m]@ == #[trigger] keys[j]);
                assert(!is_new_key(keys, i as int));
                assert(kept_upto(keys, i + 1) == kept_upto(keys, i as int));
            }
        }
        i = i + 1;
    }
}

} // verus!
