//! Squared Euclidean distance between two equal-length sample buffers, in a
//! sequential form and in a form that accumulates over a fixed number of lanes.
use vstd::prelude::*;

verus! {

/// Number of lanes of the lane-blocked accumulation.
pub const LANES: usize = 16;

/// Largest square of a difference of two `i32` values: `(2^32 - 1)^2`.
pub const MAX_SQ_DIFF: u128 = 0xFFFF_FFFE_0000_0001;

/// Square of the difference of two samples.
pub open spec fn sq_diff(x: i32, y: i32) -> int {
    (x - y) * (x - y)
}

/// Sum of the squared differences over the first `n` positions of `a` and `b`.
pub open spec fn sq_dist_upto(a: Seq<i32>, b: Seq<i32>, n: nat) -> int
    decreases n,
{
    if n == 0 {
        0
    } else {
        sq_dist_upto(a, b, (n - 1) as nat) + sq_diff(a[n - 1], b[n - 1])
    }
}

/// Squared Euclidean distance of two sample sequences of equal length.
pub open spec fn sq_dist(a: Seq<i32>, b: Seq<i32>) -> int {
    sq_dist_upto(a, b, a.len())
}

proof fn lemma_sq_diff_bounds(x: i32, y: i32)
    ensures
        0 <= sq_diff(x, y) <= MAX_SQ_DIFF,
{
    let d: int = x - y;
    assert(-4294967295 <= d <= 4294967295);
    assert(0 <= d * d <= 4294967295 * 4294967295) by (nonlinear_arith)
        requires
            -4294967295 <= d <= 4294967295,
    ;
}

/// Each prefix sum is non-negative and at most `n` times the largest square.
pub proof fn lemma_sq_dist_upto_bounds(a: Seq<i32>, b: Seq<i32>, n: nat)
    requires
        n <= a.len(),
        n <= b.len(),
    ensures
        0 <= sq_dist_upto(a, b, n) <= n * MAX_SQ_DIFF,
    decreases n,
{
    if n > 0 {
        lemma_sq_dist_upto_bounds(a, b, (n - 1) as nat);
        lemma_sq_diff_bounds(a[n - 1], b[n - 1]);
        assert((n - 1) * MAX_SQ_DIFF + MAX_SQ_DIFF == n * MAX_SQ_DIFF) by (nonlinear_arith);
    }
}

/// Squared difference of two samples, exactly.
fn square_of_difference(x: i32, y: i32) -> (r: u128)
    ensures
        r == sq_diff(x, y),
        r <= MAX_SQ_DIFF,
{
    proof {
        lemma_sq_diff_bounds(x, y);
    }
    let d: i128 = x as i128 - y as i128;
    assert(-4294967295 <= d <= 4294967295);
    assert(d * d == sq_diff(x, y));
    (d * d) as u128
}

/// Squared distance between `window` and the segment of `history` that starts
/// at `start` and has the window's length.
pub fn segment_distance(history: &[i32], start: usize, window: &[i32]) -> (r: u128)
    requires
        start + window@.len() <= history@.len(),
    ensures
        r == sq_dist(window@, history@.subrange(start as int, start + window@.len())),
{
    let ghost seg = history@.subrange(start as int, start + window@.len());
    let n = window.len();
    let hl = history.len();
    let mut acc: u128 = 0;
    let mut j: usize = 0;
    while j < n
        invariant
            n == window@.len(),
            j <= n,
            hl == history@.len(),
            start + n <= hl,
            seg == history@.subrange(start as int, start + n),
            acc == sq_dist_upto(window@, seg, j as nat),
        decreases n - j,
    {
        let sq = square_of_difference(window[j], history[start + j]);
        proof {
            lemma_sq_dist_upto_bounds(window@, seg, (j + 1) as nat);
            assert((j + 1) * MAX_SQ_DIFF <= 18446744073709551616 * MAX_SQ_DIFF) by (nonlinear_arith)
                requires
                    j + 1 <= 18446744073709551616,
            ;
        }
        acc = acc + sq;
        j = j + 1;
    }
    acc
}

/// Squared Euclidean distance of two buffers of equal length, summed in order.
pub fn squared_distance(a: &[i32], b: &[i32]) -> (r: u128)
    requires
        a@.len() == b@.len(),
    ensures
        r == sq_dist(a@, b@),
{
    let r = segment_distance(b, 0, a);
    assert(b@.subrange(0, a@.len() as int) =~= b@);
    r
}

/// Sum of the first `n` entries of a sequence of lane accumulators.
pub open spec fn lanes_sum_upto(s: Seq<u128>, n: nat) -> int
    decreases n,
{
    if n == 0 {
        0
    } else {
        lanes_sum_upto(s, (n - 1) as nat) + s[n - 1]
    }
}

proof fn lemma_lanes_sum_update(s: Seq<u128>, i: int, v: u128, n: nat)
    requires
        0 <= i < s.len(),
        n <= s.len(),
    ensures
        lanes_sum_upto(s.update(i, v), n) == lanes_sum_upto(s, n) + (if i < n {
            v - s[i]
        } else {
            0
        }),
    decreases n,
{
    if n > 0 {
        lemma_lanes_sum_update(s, i, v, (n - 1) as nat);
    }
}

proof fn lemma_lanes_sum_zero(s: Seq<u128>, n: nat)
    requires
        n <= s.len(),
        forall|i: int| 0 <= i < s.len() ==> s[i] == 0,
    ensures
        lanes_sum_upto(s, n) == 0,
    decreases n,
{
    if n > 0 {
        lemma_lanes_sum_zero(s, (n - 1) as nat);
    }
}

proof fn lemma_lanes_sum_monotone(s: Seq<u128>, m: nat, n: nat)
    requires
        m <= n <= s.len(),
    ensures
        lanes_sum_upto(s, m) <= lanes_sum_upto(s, n),
        m < n ==> s[m as int] <= lanes_sum_upto(s, n) - lanes_sum_upto(s, m),
    decreases n - m,
{
    if m < n {
        lemma_lanes_sum_monotone(s, m, (n - 1) as nat);
        if m + 1 < n {
            lemma_lanes_sum_monotone(s, (m + 1) as nat, (n - 1) as nat);
        }
    }
}

/// Squared Euclidean distance of two buffers of equal length, accumulated in
/// `LANES` independent lanes over whole blocks, then summed across the lanes,
/// with the positions past the last whole block added one by one.
pub fn squared_distance_vectorized(a: &[i32], b: &[i32]) -> (r: u128)
    requires
        a@.len() == b@.len(),
    ensures
        r == sq_dist(a@, b@),
{
    let n = a.len();
    let mut lanes: Vec<u128> = Vec::new();
    while lanes.len() < LANES
        invariant
            lanes@.len() <= LANES,
            forall|i: int| 0 <= i < lanes@.len() ==> lanes@[i] == 0,
        decreases LANES - lanes@.len(),
    {
        lanes.push(0);
    }
    proof {
        lemma_lanes_sum_zero(lanes@, LANES as nat);
    }
    let blocks = n / LANES;
    let mut k: usize = 0;
    while k < blocks
        invariant
            n == a@.len(),
            n == b@.len(),
            blocks == n / LANES,
            k <= blocks,
            lanes@.len() == LANES,
            lanes_sum_upto(lanes@, LANES as nat) == sq_dist_upto(a@, b@, (k * LANES) as nat),
        decreases blocks - k,
    {
        let base = k * LANES;
        assert(base + LANES <= n) by (nonlinear_arith)
            requires
                base == k * LANES,
                k < blocks,
                blocks == n / LANES,
                LANES == 16,
        ;
        let mut l: usize = 0;
        while l < LANES
            invariant
                n == a@.len(),
                n == b@.len(),
                base + LANES <= n,
                l <= LANES,
                lanes@.len() == LANES,
                lanes_sum_upto(lanes@, LANES as nat) == sq_dist_upto(a@, b@, (base + l) as nat),
            decreases LANES - l,
        {
            let sq = square_of_difference(a[base + l], b[base + l]);
            proof {
                lemma_lanes_sum_monotone(lanes@, l as nat, LANES as nat);
                lemma_lanes_sum_monotone(lanes@, 0, l as nat);
                lemma_sq_dist_upto_bounds(a@, b@, (base + l + 1) as nat);
                assert((base + l + 1) * MAX_SQ_DIFF <= 18446744073709551616 * MAX_SQ_DIFF)
                    by (nonlinear_arith)
                    requires
                        base + l + 1 <= 18446744073709551616,
                ;
            }
            let v = lanes[l] + sq;
            proof {
                lemma_lanes_sum_update(lanes@, l as int, v, LANES as nat);
            }
            lanes.set(l, v);
            l = l + 1;
        }
        k = k + 1;
        assert(k * LANES == base + LANES) by (nonlinear_arith)
            requires
                base == (k - 1) * LANES,
        ;
    }
    proof {
        lemma_sq_dist_upto_bounds(a@, b@, (blocks * LANES) as nat);
        assert((blocks * LANES) * MAX_SQ_DIFF <= 18446744073709551616 * MAX_SQ_DIFF)
            by (nonlinear_arith)
            requires
                blocks * LANES <= 18446744073709551616,
        ;
    }
    let mut total: u128 = 0;
    let mut l: usize = 0;
    while l < LANES
        invariant
            l <= LANES,
            lanes_sum_upto(lanes@, LANES as nat) <= u128::MAX,
            lanes@.len() == LANES,
            total == lanes_sum_upto(lanes@, l as nat),
        decreases LANES - l,
    {
        proof {
            lemma_lanes_sum_monotone(lanes@, (l + 1) as nat, LANES as nat);
        }
        total = total + lanes[l];
        l = l + 1;
    }
    let mut i: usize = blocks * LANES;
    assert(i <= n) by (nonlinear_arith)
        requires
            i == blocks * LANES,
            blocks == n / LANES,
            LANES == 16,
    ;
    while i < n
        invariant
            n == a@.len(),
            n == b@.len(),
            i <= n,
            total == sq_dist_upto(a@, b@, i as nat),
        decreases n - i,
    {
        let sq = square_of_difference(a[i], b[i]);
        proof {
            lemma_sq_dist_upto_bounds(a@, b@, (i + 1) as nat);
            assert((i + 1) * MAX_SQ_DIFF <= 18446744073709551616 * MAX_SQ_DIFF) by (nonlinear_arith)
                requires
                    i + 1 <= 18446744073709551616,
            ;
        }
        total = total + sq;
        i = i + 1;
    }
    total
}

proof fn lemma_sq_dist_upto_symmetric(a: Seq<i32>, b: Seq<i32>, n: nat)
    requires
        n <= a.len(),
        n <= b.len(),
    ensures
        sq_dist_upto(a, b, n) == sq_dist_upto(b, a, n),
        sq_dist_upto(a, a, n) == 0,
    decreases n,
{
    if n > 0 {
        lemma_sq_dist_upto_symmetric(a, b, (n - 1) as nat);
        let x: int = a[n - 1] as int;
        let y: int = b[n - 1] as int;
        assert((x - y) * (x - y) == (y - x) * (y - x)) by (nonlinear_arith);
    }
}

/// The squared distance is symmetric, and the distance of a buffer to itself
/// is zero.
pub proof fn lemma_squared_distance_symmetric(a: Seq<i32>, b: Seq<i32>)
    requires
        a.len() == b.len(),
    ensures
        sq_dist(a, b) == sq_dist(b, a),
        sq_dist(a, a) == 0,
{
    lemma_sq_dist_upto_symmetric(a, b, a.len());
}

} // verus!
