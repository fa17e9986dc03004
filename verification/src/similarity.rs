use vstd::prelude::*;

verus! {

/// Fixed-point scale: a real value `x` is represented by the integer
/// `round(x * SCALE)`, both for vector coordinates and for similarity
/// scores. A cosine similarity of exactly 1.0 is the score `SCALE`.
pub const SCALE: i64 = 10000;

/// Largest admitted magnitude of a fixed-point coordinate (13.1072 in real
/// terms; embedding coordinates are normalized and far smaller). Together
/// with `DIM_BOUND` it keeps every intermediate product inside 128 bits.
pub const COORD_BOUND: i64 = 131072;

/// Largest admitted vector dimension.
pub const DIM_BOUND: usize = 16384;

/// The score assigned to a comparison against a zero-magnitude vector,
/// whose cosine is undefined: strictly below every defined score, so such
/// entries rank as least similar.
pub const MIN_SCORE: i64 = i64::MIN;

/// All coordinates within `[-COORD_BOUND, COORD_BOUND]`.
pub open spec fn bounded_coords(v: Seq<i64>) -> bool {
    forall|i: int| 0 <= i < v.len() ==> -COORD_BOUND <= #[trigger] v[i] <= COORD_BOUND
}

/// A vector the ranker admits: bounded coordinates and bounded dimension.
pub open spec fn admissible_vector(v: Seq<i64>) -> bool {
    bounded_coords(v) && v.len() <= DIM_BOUND
}

/// Dot product of two coordinate sequences (over the common prefix).
pub open spec fn dot_i(a: Seq<i64>, b: Seq<i64>) -> int
    decreases a.len(),
{
    if a.len() == 0 || b.len() == 0 {
        0
    } else {
        dot_i(a.drop_last(), b.drop_last()) + (a.last() as int) * (b.last() as int)
    }
}

/// `r` is the integer square root of `n`.
pub open spec fn is_isqrt(n: int, r: int) -> bool {
    0 <= r && r * r <= n && n < (r + 1) * (r + 1)
}

/// The integer square root of `n` (meaningful for `n >= 0`,
/// see `lemma_isqrt_exists`).
pub open spec fn isqrt_spec(n: int) -> int {
    choose|r: int| is_isqrt(n, r)
}

/// The fixed-point cosine similarity score of `v` against query `q`:
/// `sign(q . v) * sqrt((q . v)^2 * SCALE^2 / (|q|^2 * |v|^2))`, i.e. the
/// cosine scaled by `SCALE` and rounded. A zero-magnitude vector on either
/// side yields the floor `MIN_SCORE` instead of an undefined cosine.
pub open spec fn score_of(q: Seq<i64>, v: Seq<i64>) -> int {
    let d = dot_i(q, v);
    let nq = dot_i(q, q);
    let nv = dot_i(v, v);
    if nq == 0 || nv == 0 {
        MIN_SCORE as int
    } else {
        let m = isqrt_spec(((d * (SCALE as int)) * (d * (SCALE as int))) / (nq * nv));
        if d < 0 {
            -m
        } else {
            m
        }
    }
}

/// A dot product of bounded coordinates is bounded by `len * COORD_BOUND^2`.
pub proof fn lemma_dot_bound(a: Seq<i64>, b: Seq<i64>)
    requires
        a.len() == b.len(),
        bounded_coords(a),
        bounded_coords(b),
    ensures
        -(a.len() as int * ((COORD_BOUND as int) * (COORD_BOUND as int))) <= dot_i(a, b),
        dot_i(a, b) <= a.len() as int * ((COORD_BOUND as int) * (COORD_BOUND as int)),
    decreases a.len(),
{
    let c = COORD_BOUND as int;
    if a.len() == 0 {
    } else {
        let n = a.len() as int;
        assert(bounded_coords(a.drop_last()));
        assert(bounded_coords(b.drop_last()));
        lemma_dot_bound(a.drop_last(), b.drop_last());
        let x = a.last() as int;
        let y = b.last() as int;
        assert(-(c * c) <= x * y <= c * c) by (nonlinear_arith)
            requires
                -c <= x <= c,
                -c <= y <= c,
                c > 0,
        ;
        assert((n - 1) * (c * c) + c * c == n * (c * c)) by (nonlinear_arith);
    }
}

/// A dot product of a vector with itself is non-negative.
pub proof fn lemma_dot_self_nonneg(a: Seq<i64>)
    ensures
        dot_i(a, a) >= 0,
    decreases a.len(),
{
    if a.len() == 0 {
    } else {
        lemma_dot_self_nonneg(a.drop_last());
        let x = a.last() as int;
        assert(x * x >= 0) by (nonlinear_arith);
    }
}

/// A dot product of admissible vectors fits well under 2^48.
proof fn lemma_dot_abs48(a: Seq<i64>, b: Seq<i64>)
    requires
        a.len() == b.len(),
        a.len() <= DIM_BOUND,
        bounded_coords(a),
        bounded_coords(b),
    ensures
        -0x1_0000_0000_0000 <= dot_i(a, b) <= 0x1_0000_0000_0000,
{
    lemma_dot_bound(a, b);
    let n = a.len() as int;
    let cc = (COORD_BOUND as int) * (COORD_BOUND as int);
    assert(0 <= n * cc <= 0x1_0000_0000_0000) by (nonlinear_arith)
        requires
            0 <= n <= 16384,
            cc == 131072 * 131072,
    ;
}

/// Cauchy-Schwarz for integer vectors: the square of the dot product never
/// exceeds the product of the squared magnitudes.
pub proof fn lemma_cauchy_schwarz(a: Seq<i64>, b: Seq<i64>)
    requires
        a.len() == b.len(),
    ensures
        dot_i(a, b) * dot_i(a, b) <= dot_i(a, a) * dot_i(b, b),
    decreases a.len(),
{
    if a.len() == 0 {
        assert(0 * 0 <= 0 * 0) by (nonlinear_arith);
    } else {
        let a0 = a.drop_last();
        let b0 = b.drop_last();
        lemma_cauchy_schwarz(a0, b0);
        lemma_dot_self_nonneg(a0);
        lemma_dot_self_nonneg(b0);
        let d = dot_i(a0, b0);
        let nq = dot_i(a0, a0);
        let nv = dot_i(b0, b0);
        let x = a.last() as int;
        let y = b.last() as int;
        let big_a = nq * (y * y);
        let big_b = nv * (x * x);
        assert(big_a >= 0 && big_b >= 0) by (nonlinear_arith)
            requires
                nq >= 0 && nv >= 0 && big_a == nq * (y * y) && big_b == nv * (x * x),
        ;
        assert((big_a + big_b) * (big_a + big_b) >= 4 * (big_a * big_b)) by (nonlinear_arith);
        assert(big_a * big_b == (nq * nv) * ((x * y) * (x * y))) by (nonlinear_arith)
            requires
                big_a == nq * (y * y) && big_b == nv * (x * x),
        ;
        assert((nq * nv) * ((x * y) * (x * y)) >= (d * d) * ((x * y) * (x * y)))
            by (nonlinear_arith)
            requires
                d * d <= nq * nv,
        ;
        assert((big_a + big_b) * (big_a + big_b) >= (2 * (d * (x * y))) * (2 * (d * (x * y))))
            by (nonlinear_arith)
            requires
                (big_a + big_b) * (big_a + big_b) >= 4 * (big_a * big_b) && big_a * big_b >= (d
                    * d) * ((x * y) * (x * y)),
        ;
        assert(big_a + big_b >= 2 * (d * (x * y))) by (nonlinear_arith)
            requires
                big_a + big_b >= 0 && (big_a + big_b) * (big_a + big_b) >= (2 * (d * (x * y))) * (2
                    * (d * (x * y))),
        ;
        assert((d + x * y) * (d + x * y) <= (nq + x * x) * (nv + y * y)) by (nonlinear_arith)
            requires
                d * d <= nq * nv && big_a + big_b >= 2 * (d * (x * y)) && big_a == nq * (y * y)
                    && big_b == nv * (x * x),
        ;
    }
}

/// Scores stay in the fixed-point cosine range: a comparison of non-zero
/// same-dimension vectors scores between `-SCALE` and `SCALE` (cosine -1.0
/// to 1.0).
pub proof fn lemma_score_in_range(q: Seq<i64>, v: Seq<i64>)
    requires
        q.len() == v.len(),
        dot_i(q, q) != 0,
        dot_i(v, v) != 0,
    ensures
        -(SCALE as int) <= score_of(q, v) <= SCALE as int,
{
    lemma_cauchy_schwarz(q, v);
    lemma_dot_self_nonneg(q);
    lemma_dot_self_nonneg(v);
    let d = dot_i(q, v);
    let nq = dot_i(q, q);
    let nv = dot_i(v, v);
    let s = SCALE as int;
    let quot = ((d * s) * (d * s)) / (nq * nv);
    assert((d * s) * (d * s) == (d * d) * (s * s)) by (nonlinear_arith);
    assert((d * d) * (s * s) <= (nq * nv) * (s * s)) by (nonlinear_arith)
        requires
            d * d <= nq * nv,
    ;
    assert(nq * nv >= 1) by (nonlinear_arith)
        requires
            nq >= 1 && nv >= 1,
    ;
    assert(0 <= (d * d) * (s * s)) by (nonlinear_arith);
    assert(0 <= quot && quot <= s * s) by (nonlinear_arith)
        requires
            quot == ((d * d) * (s * s)) / (nq * nv) && nq * nv >= 1 && 0 <= (d * d) * (s * s) && (d
                * d) * (s * s) <= (nq * nv) * (s * s),
    ;
    lemma_isqrt_exists(quot);
    let m = isqrt_spec(quot);
    assert(m <= s) by (nonlinear_arith)
        requires
            m >= 0 && m * m <= s * s && s > 0,
    ;
}

/// Every non-negative integer has an integer square root.
pub proof fn lemma_isqrt_exists(n: int)
    requires
        n >= 0,
    ensures
        is_isqrt(n, isqrt_spec(n)),
    decreases n,
{
    if n == 0 {
        assert(is_isqrt(0, 0)) by (nonlinear_arith);
    } else {
        lemma_isqrt_exists(n - 1);
        let r = isqrt_spec(n - 1);
        if n < (r + 1) * (r + 1) {
            assert(is_isqrt(n, r));
        } else {
            assert(is_isqrt(n, r + 1)) by (nonlinear_arith)
                requires
                    is_isqrt(n - 1, r) && (r + 1) * (r + 1) <= n,
            ;
        }
        assert(exists|x: int| is_isqrt(n, x));
    }
}

/// The integer square root is unique.
pub proof fn lemma_isqrt_unique(n: int, r1: int, r2: int)
    requires
        is_isqrt(n, r1),
        is_isqrt(n, r2),
    ensures
        r1 == r2,
{
    assert(r1 == r2) by (nonlinear_arith)
        requires
            is_isqrt(n, r1) && is_isqrt(n, r2),
    ;
}

/// Integer square root by binary search.
fn isqrt(n: u128) -> (r: u128)
    requires
        n <= 0x1000_0000_0000_0000_0000_0000_0000_0000,
    ensures
        is_isqrt(n as int, r as int),
        r <= 0x4000_0000_0000_0000,
{
    let mut lo: u128 = 0;
    let mut hi: u128 = 0x8000_0000_0000_0000;
    proof {
        assert((0x8000_0000_0000_0000 as int) * (0x8000_0000_0000_0000 as int)
            > 0x1000_0000_0000_0000_0000_0000_0000_0000) by (nonlinear_arith);
    }
    while lo + 1 < hi
        invariant
            lo < hi <= 0x8000_0000_0000_0000,
            (lo as int) * (lo as int) <= n as int,
            (n as int) < (hi as int) * (hi as int),
        decreases hi - lo,
    {
        let mid = lo + (hi - lo) / 2;
        proof {
            assert((mid as int) * (mid as int) <= (0x8000_0000_0000_0000 as int)
                * (0x8000_0000_0000_0000 as int)) by (nonlinear_arith)
                requires
                    0 <= mid <= 0x8000_0000_0000_0000 as int,
            ;
        }
        if mid * mid <= n {
            lo = mid;
        } else {
            hi = mid;
        }
    }
    proof {
        let r = lo as int;
        assert(r * r <= n as int && (n as int) < (r + 1) * (r + 1));
        assert(r <= 0x4000_0000_0000_0000) by (nonlinear_arith)
            requires
                r * r <= 0x1000_0000_0000_0000_0000_0000_0000_0000 && r >= 0,
        ;
    }
    lo
}

/// Dot product of two admissible vectors.
fn dot(a: &Vec<i64>, b: &Vec<i64>) -> (r: i128)
    requires
        a@.len() == b@.len(),
        a@.len() <= DIM_BOUND,
        bounded_coords(a@),
        bounded_coords(b@),
    ensures
        r as int == dot_i(a@, b@),
{
    let ghost cc: int = 0x4_0000_0000;
    proof {
        assert(cc == (COORD_BOUND as int) * (COORD_BOUND as int)) by (nonlinear_arith)
            requires
                cc == 0x4_0000_0000,
                COORD_BOUND == 131072,
        ;
    }
    let mut acc: i128 = 0;
    let mut i: usize = 0;
    while i < a.len()
        invariant
            a@.len() == b@.len(),
            a@.len() <= DIM_BOUND,
            bounded_coords(a@),
            bounded_coords(b@),
            0 <= i <= a@.len(),
            cc == 0x4_0000_0000,
            acc as int == dot_i(a@.take(i as int), b@.take(i as int)),
            -(i as int * cc) <= acc as int <= i as int * cc,
        decreases a@.len() - i,
    {
        let x = a[i];
        let y = b[i];
        proof {
            let c = COORD_BOUND as int;
            assert(-cc <= (x as int) * (y as int) <= cc) by (nonlinear_arith)
                requires
                    -c <= x as int <= c,
                    -c <= y as int <= c,
                    c == 131072,
                    cc == 0x4_0000_0000,
            ;
            assert(i as int * cc + cc == (i + 1) as int * cc) by (nonlinear_arith);
            assert((i + 1) as int * cc <= 16384 * cc) by (nonlinear_arith)
                requires
                    (i + 1) as int <= 16384 && cc >= 0,
            ;
            assert(a@.take(i + 1).drop_last() =~= a@.take(i as int));
            assert(b@.take(i + 1).drop_last() =~= b@.take(i as int));
        }
        acc = acc + (x as i128) * (y as i128);
        i = i + 1;
    }
    proof {
        assert(a@.take(a@.len() as int) =~= a@);
        assert(b@.take(b@.len() as int) =~= b@);
    }
    acc
}

/// The fixed-point cosine similarity of two admissible vectors of the same
/// dimension: exactly `score_of` of their contents.
pub fn cosine_similarity(a: &Vec<i64>, b: &Vec<i64>) -> (r: i64)
    requires
        a@.len() == b@.len(),
        admissible_vector(a@),
        admissible_vector(b@),
    ensures
        r as int == score_of(a@, b@),
{
    let d = dot(a, b);
    let nq = dot(a, a);
    let nv = dot(b, b);
    if nq == 0 || nv == 0 {
        return MIN_SCORE;
    }
    proof {
        lemma_dot_self_nonneg(a@);
        lemma_dot_self_nonneg(b@);
        lemma_dot_abs48(a@, b@);
        lemma_dot_abs48(a@, a@);
        lemma_dot_abs48(b@, b@);
    }
    let da: u128 = if d < 0 {
        (-d) as u128
    } else {
        d as u128
    };
    let ghost dd = dot_i(a@, b@);
    let ghost s = SCALE as int;
    proof {
        assert(da as int <= 0x1_0000_0000_0000);
        assert((da as int) * s <= 0x1_0000_0000_0000 * 10000) by (nonlinear_arith)
            requires
                0 <= da as int <= 0x1_0000_0000_0000 && s == 10000,
        ;
        assert(SCALE as u128 == 10000);
    }
    let num_root: u128 = da * (SCALE as u128);
    proof {
        assert((num_root as int) * (num_root as int) <= (0x1_0000_0000_0000 * 10000) * (
        0x1_0000_0000_0000 * 10000) && (0x1_0000_0000_0000 * 10000) * (0x1_0000_0000_0000 * 10000)
            < 0x1000_0000_0000_0000_0000_0000_0000_0000) by (nonlinear_arith)
            requires
                0 <= num_root as int <= 0x1_0000_0000_0000 * 10000,
        ;
        assert((nq as int) * (nv as int) <= 0x1_0000_0000_0000 * 0x1_0000_0000_0000)
            by (nonlinear_arith)
            requires
                0 <= nq as int <= 0x1_0000_0000_0000 && 0 <= nv as int
                    <= 0x1_0000_0000_0000,
        ;
    }
    let num: u128 = num_root * num_root;
    let den: u128 = (nq as u128) * (nv as u128);
    proof {
        assert(den as int >= 1) by (nonlinear_arith)
            requires
                den as int == (nq as int) * (nv as int) && nq as int >= 1 && nv as int >= 1,
        ;
        assert(num as int / den as int <= num as int) by (nonlinear_arith)
            requires
                num as int >= 0 && den as int >= 1,
        ;
    }
    let m: u128 = isqrt(num / den);
    proof {
        // the exec quotient is the quotient in score_of
        assert((num_root as int) * (num_root as int) == ((dd * s) * (dd * s))) by (nonlinear_arith)
            requires
                num_root as int == da as int * s && (da as int == dd || da as int == -dd),
        ;
        lemma_isqrt_exists(num as int / den as int);
        lemma_isqrt_unique(num as int / den as int, m as int, isqrt_spec(num as int / den as int));
    }
    if d < 0 {
        -(m as i64)
    } else {
        m as i64
    }
}

/// Whether a vector is admissible for ranking, checked at run time.
pub fn is_admissible(v: &Vec<i64>) -> (r: bool)
    ensures
        r == admissible_vector(v@),
{
    if v.len() > DIM_BOUND {
        return false;
    }
    let mut i: usize = 0;
    while i < v.len()
        invariant
            v@.len() <= DIM_BOUND,
            0 <= i <= v@.len(),
            forall|k: int| 0 <= k < i ==> -COORD_BOUND <= #[trigger] v@[k] <= COORD_BOUND,
        decreases v@.len() - i,
    {
        let x = v[i];
        if x < -COORD_BOUND || x > COORD_BOUND {
            return false;
        }
        i = i + 1;
    }
    true
}

/// Self-similarity is exact: against itself, any admissible non-zero vector
/// scores exactly `SCALE`, the fixed-point representation of cosine 1.0.
pub proof fn lemma_self_similarity(q: Seq<i64>)
    requires
        admissible_vector(q),
        dot_i(q, q) != 0,
    ensures
        score_of(q, q) == SCALE as int,
{
    let n = dot_i(q, q);
    lemma_dot_self_nonneg(q);
    let s = SCALE as int;
    assert((n * s) * (n * s) == (s * s) * (n * n)) by (nonlinear_arith);
    assert(((s * s) * (n * n)) / (n * n) == s * s) by (nonlinear_arith)
        requires
            n > 0,
    ;
    assert(is_isqrt(s * s, s)) by (nonlinear_arith)
        requires
            s == 10000,
    ;
    lemma_isqrt_exists(s * s);
    lemma_isqrt_unique(s * s, s, isqrt_spec(s * s));
}

/// The floor score is reserved for zero-magnitude vectors: a comparison
/// where either side has zero magnitude scores exactly `MIN_SCORE`, and any
/// other comparison of admissible same-dimension vectors scores strictly
/// above it.
pub proof fn lemma_zero_magnitude_floor(q: Seq<i64>, v: Seq<i64>)
    requires
        q.len() == v.len(),
        admissible_vector(q),
        admissible_vector(v),
    ensures
        (dot_i(q, q) == 0 || dot_i(v, v) == 0) <==> score_of(q, v) == MIN_SCORE as int,
{
    let d = dot_i(q, v);
    let nq = dot_i(q, q);
    let nv = dot_i(v, v);
    if nq == 0 || nv == 0 {
    } else {
        lemma_dot_self_nonneg(q);
        lemma_dot_self_nonneg(v);
        lemma_dot_abs48(q, v);
        let s = SCALE as int;
        let quot = ((d * s) * (d * s)) / (nq * nv);
        assert(0 <= (d * s) * (d * s) <= (0x1_0000_0000_0000 * 10000) * (0x1_0000_0000_0000
            * 10000)) by (nonlinear_arith)
            requires
                -0x1_0000_0000_0000 <= d <= 0x1_0000_0000_0000 && s == 10000,
        ;
        assert(nq * nv >= 1) by (nonlinear_arith)
            requires
                nq >= 1 && nv >= 1,
        ;
        assert(0 <= quot <= (d * s) * (d * s)) by (nonlinear_arith)
            requires
                quot == ((d * s) * (d * s)) / (nq * nv) && nq * nv >= 1 && (d * s) * (d * s) >= 0,
        ;
        lemma_isqrt_exists(quot);
        let m = isqrt_spec(quot);
        assert(m * m <= quot);
        assert(m <= 0x1_0000_0000_0000 * 10000) by (nonlinear_arith)
            requires
                m >= 0 && m * m <= (0x1_0000_0000_0000 * 10000) * (0x1_0000_0000_0000
                    * 10000),
        ;
        assert(score_of(q, v) > MIN_SCORE as int);
    }
}

} // verus!
