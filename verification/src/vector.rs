//! Fixed-dimension integer vectors and the arithmetic primitives the index
//! is built on: dot product, difference, midpoint, squared Euclidean
//! distance, and a bit-exact duplicate-detection key.

use vstd::prelude::*;

verus! {

/// Largest magnitude a stored coordinate may have. Keeping coordinates in
/// this range makes every dot product and squared distance over vectors of
/// up to `MAX_DIM` coordinates fit in 64-bit arithmetic.
pub const COORD_BOUND: i64 = 524288;

/// Largest dimension a vector may have (see `COORD_BOUND`).
pub const MAX_DIM: usize = 1048576;

/// A point of the vector space: an ordered, fixed-length sequence of
/// integer coordinates. A value type with no identity beyond its
/// coordinates.
pub struct Vector {
    coords: Vec<i64>,
}

impl View for Vector {
    type V = Seq<i64>;

    closed spec fn view(&self) -> Seq<i64> {
        self.coords@
    }
}

/// A duplicate-detection key derived from a vector's exact coordinates.
/// Two vectors are duplicates iff every coordinate matches exactly.
#[derive(PartialEq, Eq, Hash)]
pub struct HashKey {
    bits: Vec<i64>,
}

impl View for HashKey {
    type V = Seq<i64>;

    closed spec fn view(&self) -> Seq<i64> {
        self.bits@
    }
}

/// Every point of `vs` is well formed and has exactly `dim` coordinates.
pub open spec fn vectors_wf(vs: Seq<Vector>, dim: nat) -> bool {
    forall|i: int| 0 <= i < vs.len() ==> (#[trigger] vs[i]).valid() && vs[i]@.len() == dim
}

/// Every coordinate of `s` has magnitude at most `b`.
pub open spec fn coords_bounded(s: Seq<i64>, b: int) -> bool {
    forall|i: int| 0 <= i < s.len() ==> -b <= #[trigger] s[i] <= b
}

/// Dot product of the first `n` coordinates.
pub open spec fn dot_prefix(a: Seq<i64>, b: Seq<i64>, n: int) -> int
    decreases n,
{
    if n <= 0 {
        0
    } else {
        dot_prefix(a, b, n - 1) + a[n - 1] * b[n - 1]
    }
}

/// Dot product: the sum of coordinate-wise products.
pub open spec fn spec_dot(a: Seq<i64>, b: Seq<i64>) -> int {
    dot_prefix(a, b, a.len() as int)
}

/// Sum of squared coordinate-wise differences over the first `n`
/// coordinates.
pub open spec fn sq_dist_prefix(a: Seq<i64>, b: Seq<i64>, n: int) -> int
    decreases n,
{
    if n <= 0 {
        0
    } else {
        sq_dist_prefix(a, b, n - 1) + (a[n - 1] - b[n - 1]) * (a[n - 1] - b[n - 1])
    }
}

/// Squared Euclidean distance: the sum of squared coordinate-wise
/// differences.
pub open spec fn spec_sq_dist(a: Seq<i64>, b: Seq<i64>) -> int {
    sq_dist_prefix(a, b, a.len() as int)
}

/// The midpoint of two coordinates, rounded down. Written over the shifted
/// non-negative sum so that the division is on a non-negative value.
pub open spec fn avg_coord(x: i64, y: i64) -> i64 {
    (((x + y + 2 * COORD_BOUND) / 2) - COORD_BOUND) as i64
}

/// A product of two values bounded by `bx` and `by` is bounded by
/// `bx * by`.
proof fn lemma_mul_bound(x: int, y: int, bx: int, by: int)
    requires
        -bx <= x <= bx,
        -by <= y <= by,
        0 <= bx,
        0 <= by,
    ensures
        -(bx * by) <= x * y <= bx * by,
{
    assert(-(bx * by) <= x * y <= bx * by) by (nonlinear_arith)
        requires
            -bx <= x <= bx,
            -by <= y <= by,
            0 <= bx,
            0 <= by,
    ;
}

/// A partial dot product of coordinate-wise bounded sequences grows by at
/// most the coordinate-bound product per term.
proof fn lemma_dot_prefix_bound(a: Seq<i64>, b: Seq<i64>, n: int, ba: int, bb: int)
    requires
        0 <= n <= a.len(),
        n <= b.len(),
        0 <= ba,
        0 <= bb,
        coords_bounded(a, ba),
        coords_bounded(b, bb),
    ensures
        -(n * (ba * bb)) <= dot_prefix(a, b, n) <= n * (ba * bb),
    decreases n,
{
    if n > 0 {
        lemma_dot_prefix_bound(a, b, n - 1, ba, bb);
        lemma_mul_bound(a[n - 1] as int, b[n - 1] as int, ba, bb);
        assert((n - 1) * (ba * bb) + ba * bb == n * (ba * bb)) by (nonlinear_arith);
    }
}

impl Vector {
    /// The number of coordinates.
    pub open spec fn spec_dim(&self) -> nat {
        self@.len()
    }

    /// A well-formed point: small enough in every coordinate and in its
    /// dimension for all arithmetic on points to stay exact.
    pub open spec fn valid(&self) -> bool {
        &&& self@.len() <= MAX_DIM
        &&& coords_bounded(self@, COORD_BOUND as int)
    }

    /// Makes a point from its coordinates, rejecting any input whose
    /// dimension or coordinates are out of the supported range.
    pub fn new(coords: Vec<i64>) -> (r: Result<Vector, crate::Error>)
        ensures
            r is Ok <==> (coords@.len() <= MAX_DIM && coords_bounded(coords@, COORD_BOUND as int)),
            r matches Ok(v) ==> v@ == coords@ && v.valid(),
            r is Err ==> r == Err::<Vector, crate::Error>(crate::Error::InvalidInput),
    {
        if coords.len() > MAX_DIM {
            return Err(crate::Error::InvalidInput);
        }
        let n = coords.len();
        let mut i: usize = 0;
        while i < n
            invariant
                n == coords@.len(),
                0 <= i <= n,
                coords_bounded(coords@.subrange(0, i as int), COORD_BOUND as int),
            decreases n - i,
        {
            let c = coords[i];
            if c < -COORD_BOUND || c > COORD_BOUND {
                return Err(crate::Error::InvalidInput);
            }
            assert(coords@.subrange(0, i + 1) == coords@.subrange(0, i as int).push(coords@[i as int]));
            i = i + 1;
        }
        assert(coords@.subrange(0, n as int) == coords@);
        Ok(Vector { coords })
    }

    /// The number of coordinates, as executable code.
    pub fn dim(&self) -> (r: usize)
        ensures
            r == self.spec_dim(),
    {
        self.coords.len()
    }

    /// Reads one coordinate.
    pub fn coord(&self, i: usize) -> (r: i64)
        requires
            i < self@.len(),
        ensures
            r == self@[i as int],
    {
        self.coords[i]
    }

    /// An independent copy of the point, equal coordinate for coordinate.
    pub fn copy_point(&self) -> (r: Vector)
        ensures
            r@ == self@,
    {
        let n = self.coords.len();
        let mut result: Vec<i64> = Vec::new();
        let mut i: usize = 0;
        while i < n
            invariant
                n == self@.len(),
                0 <= i <= n,
                result@ == self@.subrange(0, i as int),
            decreases n - i,
        {
            result.push(self.coords[i]);
            proof {
                assert(self@.subrange(0, i + 1) == self@.subrange(0, i as int).push(self@[i as int]));
            }
            i = i + 1;
        }
        proof {
            assert(self@.subrange(0, n as int) == self@);
        }
        Vector { coords: result }
    }

    /// Dot product: the sum of coordinate-wise products. The left operand
    /// may be a difference of two points, so it is allowed twice the
    /// coordinate range.
    pub fn dot_prod(&self, vector: &Vector) -> (r: i64)
        requires
            self@.len() == vector@.len(),
            self@.len() <= MAX_DIM,
            coords_bounded(self@, 2 * COORD_BOUND as int),
            coords_bounded(vector@, COORD_BOUND as int),
        ensures
            r == spec_dot(self@, vector@),
    {
        let n = self.coords.len();
        let mut acc: i64 = 0;
        let mut i: usize = 0;
        while i < n
            invariant
                n == self@.len(),
                n == vector@.len(),
                n <= MAX_DIM,
                coords_bounded(self@, 2 * COORD_BOUND as int),
                coords_bounded(vector@, COORD_BOUND as int),
                0 <= i <= n,
                acc == dot_prefix(self@, vector@, i as int),
            decreases n - i,
        {
            proof {
                lemma_mul_bound(
                    self@[i as int] as int,
                    vector@[i as int] as int,
                    2 * COORD_BOUND as int,
                    COORD_BOUND as int,
                );
                lemma_dot_prefix_bound(
                    self@,
                    vector@,
                    i + 1,
                    2 * COORD_BOUND as int,
                    COORD_BOUND as int,
                );
            }
            let p = self.coords[i] * vector.coords[i];
            acc = acc + p;
            i = i + 1;
        }
        acc
    }

    /// Coordinate-wise difference `self - vector`. The result's coordinates
    /// stay within twice the point range.
    pub fn subtract(&self, vector: &Vector) -> (r: Vector)
        requires
            self@.len() == vector@.len(),
            self.valid(),
            vector.valid(),
        ensures
            r@.len() == self@.len(),
            forall|i: int| 0 <= i < self@.len() ==> r@[i] == self@[i] - vector@[i],
            coords_bounded(r@, 2 * COORD_BOUND as int),
    {
        let n = self.coords.len();
        let mut result: Vec<i64> = Vec::new();
        let mut i: usize = 0;
        while i < n
            invariant
                n == self@.len(),
                n == vector@.len(),
                self.valid(),
                vector.valid(),
                0 <= i <= n,
                result@.len() == i,
                forall|j: int| 0 <= j < i ==> result@[j] == self@[j] - vector@[j],
            decreases n - i,
        {
            result.push(self.coords[i] - vector.coords[i]);
            i = i + 1;
        }
        Vector { coords: result }
    }

    /// Coordinate-wise midpoint of `self` and `vector`, rounded down.
    pub fn avg(&self, vector: &Vector) -> (r: Vector)
        requires
            self@.len() == vector@.len(),
            self.valid(),
            vector.valid(),
        ensures
            r@.len() == self@.len(),
            forall|i: int| 0 <= i < self@.len() ==> r@[i] == avg_coord(self@[i], vector@[i]),
            r.valid(),
    {
        let n = self.coords.len();
        let mut result: Vec<i64> = Vec::new();
        let mut i: usize = 0;
        while i < n
            invariant
                n == self@.len(),
                n == vector@.len(),
                self.valid(),
                vector.valid(),
                0 <= i <= n,
                result@.len() == i,
                forall|j: int| 0 <= j < i ==> result@[j] == avg_coord(self@[j], vector@[j]),
                coords_bounded(result@, COORD_BOUND as int),
            decreases n - i,
        {
            let s: i64 = self.coords[i] + vector.coords[i] + 2 * COORD_BOUND;
            let half: i64 = ((s as u64) / 2) as i64;
            result.push(half - COORD_BOUND);
            i = i + 1;
        }
        Vector { coords: result }
    }

    /// The duplicate-detection key: the exact coordinates, collected
    /// verbatim. Two vectors get equal keys iff they match coordinate for
    /// coordinate.
    pub fn to_hashkey(&self) -> (r: HashKey)
        ensures
            r@ == self@,
    {
        let n = self.coords.len();
        let mut data: Vec<i64> = Vec::new();
        let mut i: usize = 0;
        while i < n
            invariant
                n == self@.len(),
                0 <= i <= n,
                data@ == self@.subrange(0, i as int),
            decreases n - i,
        {
            data.push(self.coords[i]);
            proof {
                assert(self@.subrange(0, i + 1) == self@.subrange(0, i as int).push(self@[i as int]));
            }
            i = i + 1;
        }
        proof {
            assert(self@.subrange(0, n as int) == self@);
        }
        HashKey { bits: data }
    }

    /// Squared Euclidean distance: the sum of squared coordinate-wise
    /// differences. Always non-negative, so it is returned unsigned.
    pub fn sq_euc_dis(&self, vector: &Vector) -> (r: u64)
        requires
            self@.len() == vector@.len(),
            self.valid(),
            vector.valid(),
        ensures
            r == spec_sq_dist(self@, vector@),
    {
        let n = self.coords.len();
        let mut acc: u64 = 0;
        let mut i: usize = 0;
        while i < n
            invariant
                n == self@.len(),
                n == vector@.len(),
                self.valid(),
                vector.valid(),
                0 <= i <= n,
                acc == sq_dist_prefix(self@, vector@, i as int),
            decreases n - i,
        {
            proof {
                lemma_mul_bound(
                    self@[i as int] - vector@[i as int],
                    self@[i as int] - vector@[i as int],
                    2 * COORD_BOUND as int,
                    2 * COORD_BOUND as int,
                );
                lemma_square_nonneg(self@[i as int] - vector@[i as int]);
                lemma_sq_dist_prefix_bound(self@, vector@, i + 1);
            }
            let d = self.coords[i] - vector.coords[i];
            let sq = d * d;
            acc = acc + (sq as u64);
            i = i + 1;
        }
        acc
    }
}

/// A dot product of a difference vector against a point stays within the
/// range that one more 64-bit addition can absorb.
pub(crate) proof fn lemma_spec_dot_bound(a: Seq<i64>, b: Seq<i64>)
    requires
        a.len() == b.len(),
        a.len() <= MAX_DIM,
        coords_bounded(a, 2 * COORD_BOUND as int),
        coords_bounded(b, COORD_BOUND as int),
    ensures
        -(MAX_DIM as int) * (2 * COORD_BOUND as int) * (COORD_BOUND as int) <= spec_dot(a, b)
            <= (MAX_DIM as int) * (2 * COORD_BOUND as int) * (COORD_BOUND as int),
{
    lemma_dot_prefix_bound(a, b, a.len() as int, 2 * COORD_BOUND as int, COORD_BOUND as int);
}

/// A square is never negative.
proof fn lemma_square_nonneg(x: int)
    ensures
        x * x >= 0,
{
    assert(x * x >= 0) by (nonlinear_arith);
}

/// A partial squared distance of coordinate-wise bounded sequences is
/// non-negative and grows by at most the squared coordinate range per term.
proof fn lemma_sq_dist_prefix_bound(a: Seq<i64>, b: Seq<i64>, n: int)
    requires
        0 <= n <= a.len(),
        n <= b.len(),
        coords_bounded(a, COORD_BOUND as int),
        coords_bounded(b, COORD_BOUND as int),
    ensures
        0 <= sq_dist_prefix(a, b, n) <= n * ((2 * COORD_BOUND as int) * (2 * COORD_BOUND as int)),
    decreases n,
{
    if n > 0 {
        lemma_sq_dist_prefix_bound(a, b, n - 1);
        lemma_mul_bound(
            a[n - 1] - b[n - 1],
            a[n - 1] - b[n - 1],
            2 * COORD_BOUND as int,
            2 * COORD_BOUND as int,
        );
        lemma_square_nonneg(a[n - 1] - b[n - 1]);
        assert((n - 1) * ((2 * COORD_BOUND as int) * (2 * COORD_BOUND as int)) + (2 * COORD_BOUND
            as int) * (2 * COORD_BOUND as int) == n * ((2 * COORD_BOUND as int) * (2 * COORD_BOUND
            as int))) by (nonlinear_arith);
    }
}

/// Per-prefix form of the squared-distance laws: symmetry, non-negativity,
/// and a zero distance from a sequence to itself.
proof fn lemma_sq_dist_prefix_props(a: Seq<i64>, b: Seq<i64>, n: int)
    ensures
        sq_dist_prefix(a, b, n) == sq_dist_prefix(b, a, n),
        sq_dist_prefix(a, b, n) >= 0,
        sq_dist_prefix(a, a, n) == 0,
    decreases n,
{
    if n > 0 {
        lemma_sq_dist_prefix_props(a, b, n - 1);
        assert((a[n - 1] - b[n - 1]) * (a[n - 1] - b[n - 1]) == (b[n - 1] - a[n - 1]) * (b[n - 1]
            - a[n - 1])) by (nonlinear_arith);
        assert((a[n - 1] - b[n - 1]) * (a[n - 1] - b[n - 1]) >= 0) by (nonlinear_arith);
    }
}

/// Distance correctness: for any same-length coordinate sequences `a` and
/// `b`, the squared distance is symmetric and non-negative, and the
/// distance from a sequence to itself is zero.
pub proof fn lemma_sq_dist_properties(a: Seq<i64>, b: Seq<i64>)
    requires
        a.len() == b.len(),
    ensures
        spec_sq_dist(a, b) == spec_sq_dist(b, a),
        spec_sq_dist(a, b) >= 0,
        spec_sq_dist(a, a) == 0,
{
    lemma_sq_dist_prefix_props(a, b, a.len() as int);
    lemma_sq_dist_prefix_props(a, a, a.len() as int);
}

/// Decides whether two duplicate-detection keys match exactly.
pub fn key_eq(a: &HashKey, b: &HashKey) -> (r: bool)
    ensures
        r == (a@ == b@),
{
    if a.bits.len() != b.bits.len() {
        return false;
    }
    let n = a.bits.len();
    let mut i: usize = 0;
    while i < n
        invariant
            n == a@.len(),
            n == b@.len(),
            0 <= i <= n,
            forall|j: int| 0 <= j < i ==> a@[j] == b@[j],
        decreases n - i,
    {
        if a.bits[i] != b.bits[i] {
            return false;
        }
        i = i + 1;
    }
    proof {
        assert(a@ =~= b@);
    }
    true
}

} // verus!
