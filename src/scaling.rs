//! Min-max normalization, exact: each scaled value is a fraction of two
//! integers. A constant buffer has a zero range, and its scaled values have a
//! zero denominator, the undefined value of a division by zero.
use vstd::prelude::*;
use crate::motif::Distance;
use crate::wide::product_le;

verus! {

/// The fraction `num / den`; a zero `den` stands for an undefined value.
#[derive(Debug, Clone, Copy, PartialEq, Eq, Structural)]
pub struct Fraction {
    pub num: i64,
    pub den: i64,
}

/// `f` is defined and equals `p / q`.
pub open spec fn has_value(f: Fraction, p: int, q: int) -> bool {
    f.den != 0 && q != 0 && f.num * q == p * f.den
}

proof fn lemma_i64_product_fits(x: int, y: int)
    requires
        i64::MIN <= x <= i64::MAX,
        i64::MIN <= y <= i64::MAX,
    ensures
        i128::MIN <= x * y <= i128::MAX,
{
    assert(-0x4000_0000_0000_0000_0000_0000_0000_0000 <= x * y <= 0x4000_0000_0000_0000_0000_0000_0000_0000)
        by (nonlinear_arith)
        requires
            -0x8000_0000_0000_0000 <= x <= 0x8000_0000_0000_0000,
            -0x8000_0000_0000_0000 <= y <= 0x8000_0000_0000_0000,
    ;
}

impl Fraction {
    /// Both fractions are defined and equal as rational numbers.
    pub fn same_value(&self, other: &Fraction) -> (r: bool)
        ensures
            r == has_value(*self, other.num as int, other.den as int),
    {
        if self.den == 0 || other.den == 0 {
            return false;
        }
        let (a, b, c, d) = (self.num as i128, other.den as i128, other.num as i128, self.den as i128);
        proof {
            lemma_i64_product_fits(a as int, b as int);
            lemma_i64_product_fits(c as int, d as int);
        }
        a * b == c * d
    }
}

/// Smallest value of a non-empty sequence.
pub open spec fn seq_min(s: Seq<i32>) -> int
    decreases s.len(),
{
    if s.len() <= 1 {
        s[0] as int
    } else {
        let m = seq_min(s.drop_last());
        if s.last() < m {
            s.last() as int
        } else {
            m
        }
    }
}

/// Largest value of a non-empty sequence.
pub open spec fn seq_max(s: Seq<i32>) -> int
    decreases s.len(),
{
    if s.len() <= 1 {
        s[0] as int
    } else {
        let m = seq_max(s.drop_last());
        if s.last() > m {
            s.last() as int
        } else {
            m
        }
    }
}

/// `value` mapped from the range `from_min .. from_max` to `0 .. 1`.
pub open spec fn scaled(from_min: int, from_max: int, value: int) -> Fraction {
    Fraction { num: (value - from_min) as i64, den: (from_max - from_min) as i64 }
}

/// `vals` scaled by min-max normalization.
pub open spec fn normalized(vals: Seq<i32>) -> Seq<Fraction> {
    vals.map_values(|v: i32| scaled(seq_min(vals), seq_max(vals), v as int))
}

/// Scales `value` from the range `from_min .. from_max` to `0 .. 1`:
/// `(value - from_min) / (from_max - from_min)`.
pub fn scale(from_min: i32, from_max: i32, value: i32) -> (r: Fraction)
    ensures
        r == scaled(from_min as int, from_max as int, value as int),
        r.num == value - from_min,
        r.den == from_max - from_min,
{
    Fraction { num: value as i64 - from_min as i64, den: from_max as i64 - from_min as i64 }
}

/// The bounds of a range scale to zero and one.
pub proof fn lemma_scale_bounds(a: i32, a_max: i32)
    requires
        a < a_max,
    ensures
        has_value(scaled(a as int, a_max as int, a as int), 0, 1),
        has_value(scaled(a as int, a_max as int, a_max as int), 1, 1),
{
}

/// Smallest and largest value of a non-empty buffer.
pub fn min_max(vals: &[i32]) -> (r: (i32, i32))
    requires
        vals@.len() > 0,
    ensures
        r.0 == seq_min(vals@),
        r.1 == seq_max(vals@),
{
    let mut low = vals[0];
    let mut high = vals[0];
    let mut i: usize = 1;
    proof {
        assert(vals@.subrange(0, 1).len() == 1);
    }
    while i < vals.len()
        invariant
            1 <= i <= vals@.len(),
            low == seq_min(vals@.subrange(0, i as int)),
            high == seq_max(vals@.subrange(0, i as int)),
        decreases vals@.len() - i,
    {
        proof {
            assert(vals@.subrange(0, i + 1).drop_last() =~= vals@.subrange(0, i as int));
        }
        if vals[i] < low {
            low = vals[i];
        }
        if vals[i] > high {
            high = vals[i];
        }
        i = i + 1;
    }
    proof {
        assert(vals@.subrange(0, vals@.len() as int) =~= vals@);
    }
    (low, high)
}

/// Min-max normalization: every value mapped by `scale` from the range of the
/// buffer to `0 .. 1`. A constant buffer gives undefined values throughout.
pub fn normalize(vals: &[i32]) -> (r: Vec<Fraction>)
    requires
        vals@.len() > 0,
    ensures
        r@ == normalized(vals@),
{
    let (low, high) = min_max(vals);
    let mut r: Vec<Fraction> = Vec::new();
    let mut i: usize = 0;
    while i < vals.len()
        invariant
            i <= vals@.len(),
            low == seq_min(vals@),
            high == seq_max(vals@),
            r@.len() == i,
            forall|k: int| 0 <= k < i ==> r@[k] == scaled(low as int, high as int, vals@[k] as int),
        decreases vals@.len() - i,
    {
        r.push(scale(low, high, vals[i]));
        i = i + 1;
    }
    assert(r@ =~= normalized(vals@));
    r
}

/// Every value of a non-empty sequence lies between its smallest and largest.
pub proof fn lemma_min_max_bounds(s: Seq<i32>, i: int)
    requires
        0 <= i < s.len(),
    ensures
        seq_min(s) <= s[i] <= seq_max(s),
    decreases s.len(),
{
    if s.len() > 1 && i < s.len() - 1 {
        lemma_min_max_bounds(s.drop_last(), i);
    }
}

/// The smallest and the largest value of a non-empty sequence are samples.
pub proof fn lemma_min_max_in_range(s: Seq<i32>)
    requires
        s.len() > 0,
    ensures
        i32::MIN <= seq_min(s) <= i32::MAX,
        i32::MIN <= seq_max(s) <= i32::MAX,
    decreases s.len(),
{
    if s.len() > 1 {
        lemma_min_max_in_range(s.drop_last());
    }
}

/// Numerator of the term at position `i` of the normalized squared distance of
/// `a` and `b`, over the common denominator `range(a) * range(b)`.
pub open spec fn cross_term(a: Seq<i32>, b: Seq<i32>, i: int) -> int {
    (a[i] - seq_min(a)) * (seq_max(b) - seq_min(b)) - (b[i] - seq_min(b)) * (seq_max(a) - seq_min(
        a,
    ))
}

/// Sum of the squared cross terms over the first `n` positions.
pub open spec fn norm_num_upto(a: Seq<i32>, b: Seq<i32>, n: nat) -> int
    decreases n,
{
    if n == 0 {
        0
    } else {
        norm_num_upto(a, b, (n - 1) as nat) + cross_term(a, b, n - 1) * cross_term(a, b, n - 1)
    }
}

/// Numerator of the squared distance of `a` and `b` after both are min-max
/// normalized.
pub open spec fn norm_num(a: Seq<i32>, b: Seq<i32>) -> int {
    norm_num_upto(a, b, a.len())
}

/// Denominator of the squared distance of `a` and `b` after both are min-max
/// normalized, `(range(a) * range(b))^2`; zero when either is constant.
pub open spec fn norm_den(a: Seq<i32>, b: Seq<i32>) -> int {
    let r = (seq_max(a) - seq_min(a)) * (seq_max(b) - seq_min(b));
    r * r
}

/// The normalized distance is made of the fractions that `normalize` gives:
/// the term at `i` is the difference of the two normalized values over their
/// common denominator, and the denominator is the square of that common
/// denominator.
pub proof fn lemma_norm_terms_are_normalized(a: Seq<i32>, b: Seq<i32>, i: int)
    requires
        a.len() == b.len(),
        0 <= i < a.len(),
    ensures
        cross_term(a, b, i) == normalized(a)[i].num * normalized(b)[i].den - normalized(b)[i].num
            * normalized(a)[i].den,
        norm_den(a, b) == (normalized(a)[i].den * normalized(b)[i].den) * (normalized(a)[i].den
            * normalized(b)[i].den),
{
    lemma_min_max_in_range(a);
    lemma_min_max_in_range(b);
    lemma_min_max_bounds(a, i);
    lemma_min_max_bounds(b, i);
}

proof fn lemma_norm_num_monotone(a: Seq<i32>, b: Seq<i32>, m: nat, n: nat)
    requires
        m <= n,
    ensures
        norm_num_upto(a, b, m) <= norm_num_upto(a, b, n),
    decreases n - m,
{
    if m < n {
        lemma_norm_num_monotone(a, b, m, (n - 1) as nat);
        let c = cross_term(a, b, n - 1);
        assert(c * c >= 0) by (nonlinear_arith);
    }
}

/// Square of a cross term, computed exactly.
fn squared_cross_term(a: &[i32], b: &[i32], i: usize, a_min: i32, a_max: i32, b_min: i32, b_max: i32) -> (r: u128)
    requires
        a@.len() == b@.len(),
        i < a@.len(),
        a@.len() > 0,
        a_min == seq_min(a@),
        a_max == seq_max(a@),
        b_min == seq_min(b@),
        b_max == seq_max(b@),
    ensures
        r == cross_term(a@, b@, i as int) * cross_term(a@, b@, i as int),
{
    proof {
        lemma_min_max_bounds(a@, i as int);
        lemma_min_max_bounds(b@, i as int);
    }
    let x: i128 = a[i] as i128 - a_min as i128;
    let y: i128 = b[i] as i128 - b_min as i128;
    let ra: i128 = a_max as i128 - a_min as i128;
    let rb: i128 = b_max as i128 - b_min as i128;
    let bound: i128 = 0xFFFF_FFFF;
    assert(0 <= x * rb <= ra * rb <= bound * bound) by (nonlinear_arith)
        requires
            0 <= x <= ra <= bound,
            0 <= rb <= bound,
    ;
    assert(0 <= y * ra <= ra * rb <= bound * bound) by (nonlinear_arith)
        requires
            0 <= y <= rb <= bound,
            0 <= ra <= bound,
    ;
    let t: i128 = x * rb - y * ra;
    let m: u128 = if t < 0 {
        (-t) as u128
    } else {
        t as u128
    };
    assert(m * m <= (bound * bound) * (bound * bound)) by (nonlinear_arith)
        requires
            0 <= m <= bound * bound,
    ;
    assert(m * m == t * t) by (nonlinear_arith)
        requires
            m == t || m == -t,
    ;
    m * m
}

/// Numerator of the normalized squared distance of two buffers of equal length,
/// or `None` when it exceeds `u128::MAX`.
pub fn normalized_numerator(a: &[i32], b: &[i32]) -> (r: Option<u128>)
    requires
        a@.len() == b@.len(),
        a@.len() > 0,
    ensures
        match r {
            Some(v) => v == norm_num(a@, b@),
            None => norm_num(a@, b@) > u128::MAX,
        },
{
    let (a_min, a_max) = min_max(a);
    let (b_min, b_max) = min_max(b);
    let n = a.len();
    let mut acc: u128 = 0;
    let mut i: usize = 0;
    while i < n
        invariant
            n == a@.len(),
            n == b@.len(),
            n > 0,
            i <= n,
            a_min == seq_min(a@),
            a_max == seq_max(a@),
            b_min == seq_min(b@),
            b_max == seq_max(b@),
            acc == norm_num_upto(a@, b@, i as nat),
        decreases n - i,
    {
        let sq = squared_cross_term(a, b, i, a_min, a_max, b_min, b_max);
        match acc.checked_add(sq) {
            Some(v) => {
                acc = v;
            },
            None => {
                proof {
                    lemma_norm_num_monotone(a@, b@, (i + 1) as nat, n as nat);
                }
                return None;
            },
        }
        i = i + 1;
    }
    Some(acc)
}

/// Denominator of the normalized squared distance of two non-empty buffers.
pub fn normalized_denominator(a: &[i32], b: &[i32]) -> (r: u128)
    requires
        a@.len() > 0,
        b@.len() > 0,
    ensures
        r == norm_den(a@, b@),
{
    let (a_min, a_max) = min_max(a);
    let (b_min, b_max) = min_max(b);
    proof {
        lemma_min_max_bounds(a@, 0);
        lemma_min_max_bounds(b@, 0);
    }
    let ra: u128 = (a_max as i64 - a_min as i64) as u128;
    let rb: u128 = (b_max as i64 - b_min as i64) as u128;
    let bound: u128 = 0xFFFF_FFFF;
    assert(ra * rb <= bound * bound) by (nonlinear_arith)
        requires
            ra <= bound,
            rb <= bound,
    ;
    let r = ra * rb;
    assert(r * r <= (bound * bound) * (bound * bound)) by (nonlinear_arith)
        requires
            r <= bound * bound,
    ;
    r * r
}

/// The normalized squared distance `num / den`; `den` is zero, and the
/// distance undefined, where the window or the segment is constant.
#[derive(Debug, Clone, Copy, PartialEq, Eq, Structural)]
pub struct ScaledDistance {
    pub num: u128,
    pub den: u128,
}

/// Defined distances compare as fractions; an undefined one is greater than
/// every defined one and equivalent to every undefined one.
impl Distance for ScaledDistance {
    open spec fn at_most(&self, other: &ScaledDistance) -> bool {
        if self.den == 0 {
            other.den == 0
        } else if other.den == 0 {
            true
        } else {
            self.num * other.den <= other.num * self.den
        }
    }

    fn le(&self, other: &ScaledDistance) -> (r: bool) {
        if self.den == 0 {
            other.den == 0
        } else if other.den == 0 {
            true
        } else {
            product_le(self.num, other.den, other.num, self.den)
        }
    }

    proof fn lemma_total_preorder(a: &ScaledDistance, b: &ScaledDistance, c: &ScaledDistance) {
        if a.den != 0 && b.den != 0 && c.den != 0 {
            let (an, ad, bn, bd, cn, cd) = (
                a.num as int,
                a.den as int,
                b.num as int,
                b.den as int,
                c.num as int,
                c.den as int,
            );
            if an * bd <= bn * ad && bn * cd <= cn * bd {
                assert((an * cd) * bd <= (cn * ad) * bd) by (nonlinear_arith)
                    requires
                        an * bd <= bn * ad,
                        bn * cd <= cn * bd,
                        0 < ad,
                        0 < bd,
                        0 < cd,
                ;
                assert(an * cd <= cn * ad) by (nonlinear_arith)
                    requires
                        (an * cd) * bd <= (cn * ad) * bd,
                        0 < bd,
                ;
            }
        }
    }
}

} // verus!
