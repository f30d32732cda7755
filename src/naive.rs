//! Distance profiles: the squared distance from a reference window to every
//! sub-sequence of a history, one per timestep offset.
//!
//! Samples of one timestep are stored next to each other: for a series of
//! dimension `dim`, timestep `t` occupies `history[t * dim .. (t + 1) * dim]`.
use vstd::prelude::*;
use crate::distance::{sq_dist, segment_distance};
use crate::scaling::{
    norm_den, norm_num, normalized_denominator, normalized_numerator, ScaledDistance,
};
use crate::motif::{is_first_minimum, is_ranking, min_offset, rank_offsets};

verus! {

/// Why a distance profile could not be computed.
#[derive(Debug, Clone, Copy, PartialEq, Eq, Structural)]
pub enum ProfileError {
    /// `dim` is zero, or the window is empty, or its length is not a multiple of `dim`.
    InvalidDimension,
    /// The window is longer than the history.
    WindowTooLarge,
    /// A normalized distance has a numerator beyond `u128::MAX`.
    Overflow,
}

/// The error that the shapes of history (length `h`), window (length `w`) and
/// dimension call for, if any. Dimension problems are reported first.
pub open spec fn shape_error(h: nat, w: nat, dim: nat) -> Option<ProfileError> {
    if dim == 0 || w == 0 || w % dim != 0 {
        Some(ProfileError::InvalidDimension)
    } else if w > h {
        Some(ProfileError::WindowTooLarge)
    } else {
        None
    }
}

/// Number of timestep offsets at which a window of `w` samples fits in a
/// history of `h` samples.
pub open spec fn offset_count(h: nat, w: nat, dim: nat) -> nat {
    ((h - w) / (dim as int) + 1) as nat
}

/// The segment of `history` compared with a window of length `w` at timestep offset `t`.
pub open spec fn segment(history: Seq<i32>, w: nat, dim: nat, t: int) -> Seq<i32> {
    history.subrange(t * dim, t * dim + w)
}

/// Raw distance at timestep offset `t`.
pub open spec fn raw_entry(history: Seq<i32>, window: Seq<i32>, dim: nat, t: int) -> int {
    sq_dist(window, segment(history, window.len(), dim, t))
}

/// `p` is the raw distance profile of `window` against `history`.
pub open spec fn is_raw_profile(p: Seq<u128>, history: Seq<i32>, window: Seq<i32>, dim: nat) -> bool {
    &&& p.len() == offset_count(history.len(), window.len(), dim)
    &&& forall|t: int| 0 <= t < p.len() ==> p[t] == raw_entry(history, window, dim, t)
}

proof fn lemma_offset_in_bounds(h: int, w: int, dim: int, t: int)
    requires
        0 < dim,
        0 <= w <= h,
        0 <= t < (h - w) / dim + 1,
    ensures
        0 <= t * dim,
        t * dim + w <= h,
{
    let q = (h - w) / dim;
    assert(q * dim <= h - w) by (nonlinear_arith)
        requires
            0 < dim,
            0 <= h - w,
            q == (h - w) / dim,
    ;
    assert(0 <= t * dim <= q * dim) by (nonlinear_arith)
        requires
            0 < dim,
            0 <= t <= q,
    ;
}

/// Index in `history` where the segment of each timestep offset starts, in
/// ascending order: `t * dim` for offset `t`.
pub fn segment_starts(history_len: usize, window_len: usize, dim: usize) -> (r: Result<
    Vec<usize>,
    ProfileError,
>)
    ensures
        match r {
            Ok(s) => shape_error(history_len as nat, window_len as nat, dim as nat) is None
                && s@.len() == offset_count(history_len as nat, window_len as nat, dim as nat)
                && forall|t: int| 0 <= t < s@.len() ==> #[trigger] s@[t] == t * dim && s@[t]
                + window_len <= history_len,
            Err(e) => shape_error(history_len as nat, window_len as nat, dim as nat) == Some(e),
        },
{
    let h = history_len;
    let w = window_len;
    if dim == 0 || w == 0 || w % dim != 0 {
        return Err(ProfileError::InvalidDimension);
    }
    if w > h {
        return Err(ProfileError::WindowTooLarge);
    }
    let count = (h - w) / dim + 1;
    let mut s: Vec<usize> = Vec::new();
    let mut t: usize = 0;
    while t < count
        invariant
            0 < dim,
            0 < w <= h,
            w % dim == 0,
            count == offset_count(h as nat, w as nat, dim as nat),
            t <= count,
            s@.len() == t,
            forall|u: int| 0 <= u < t ==> #[trigger] s@[u] == u * dim && s@[u] + w <= h,
        decreases count - t,
    {
        proof {
            lemma_offset_in_bounds(h as int, w as int, dim as int, t as int);
        }
        s.push(t * dim);
        t = t + 1;
    }
    Ok(s)
}

/// Raw distance profile: for each timestep offset `t`, in ascending order, the
/// squared distance from `window` to `history[t * dim .. t * dim + window.len()]`.
pub fn distance_profile(history: &[i32], window: &[i32], dim: usize) -> (r: Result<
    Vec<u128>,
    ProfileError,
>)
    ensures
        match r {
            Ok(p) => shape_error(history@.len(), window@.len(), dim as nat) is None
                && is_raw_profile(p@, history@, window@, dim as nat),
            Err(e) => shape_error(history@.len(), window@.len(), dim as nat) == Some(e),
        },
{
    let starts = segment_starts(history.len(), window.len(), dim)?;
    let mut p: Vec<u128> = Vec::new();
    let mut t: usize = 0;
    while t < starts.len()
        invariant
            starts@.len() == offset_count(history@.len(), window@.len(), dim as nat),
            forall|u: int|
                0 <= u < starts@.len() ==> #[trigger] starts@[u] == u * dim && starts@[u]
                    + window@.len() <= history@.len(),
            t <= starts@.len(),
            p@.len() == t,
            forall|u: int| 0 <= u < t ==> p@[u] == raw_entry(history@, window@, dim as nat, u),
        decreases starts@.len() - t,
    {
        let start = starts[t];
        p.push(segment_distance(history, start, window));
        t = t + 1;
    }
    Ok(p)
}

/// Normalized distance profile: for each timestep offset `t`, in ascending
/// order, the squared distance between `window` and
/// `history[t * dim .. t * dim + window.len()]` after each of the two is
/// min-max normalized on its own.
pub fn distance_profile_normalized(history: &[i32], window: &[i32], dim: usize) -> (r: Result<
    Vec<ScaledDistance>,
    ProfileError,
>)
    ensures
        match r {
            Ok(p) => shape_error(history@.len(), window@.len(), dim as nat) is None && p@.len()
                == offset_count(history@.len(), window@.len(), dim as nat) && forall|t: int|
                0 <= t < p@.len() ==> {
                    let seg = #[trigger] segment(history@, window@.len(), dim as nat, t);
                    p@[t].num == norm_num(window@, seg) && p@[t].den == norm_den(window@, seg)
                },
            Err(e) => if e == ProfileError::Overflow {
                shape_error(history@.len(), window@.len(), dim as nat) is None && exists|t: int|
                    0 <= t < offset_count(history@.len(), window@.len(), dim as nat) && norm_num(
                        window@,
                        #[trigger] segment(history@, window@.len(), dim as nat, t),
                    ) > u128::MAX
            } else {
                shape_error(history@.len(), window@.len(), dim as nat) == Some(e)
            },
        },
{
    let starts = segment_starts(history.len(), window.len(), dim)?;
    let w = window.len();
    let h = history.len();
    let mut p: Vec<ScaledDistance> = Vec::new();
    let mut t: usize = 0;
    while t < starts.len()
        invariant
            w == window@.len(),
            h == history@.len(),
            0 < w,
            shape_error(history@.len(), w as nat, dim as nat) is None,
            starts@.len() == offset_count(history@.len(), w as nat, dim as nat),
            forall|u: int|
                0 <= u < starts@.len() ==> #[trigger] starts@[u] == u * dim && starts@[u] + w
                    <= history@.len(),
            t <= starts@.len(),
            p@.len() == t,
            forall|u: int|
                0 <= u < t ==> {
                    let seg = #[trigger] segment(history@, w as nat, dim as nat, u);
                    p@[u].num == norm_num(window@, seg) && p@[u].den == norm_den(window@, seg)
                },
        decreases starts@.len() - t,
    {
        let start = starts[t];
        let seg = &history[start..start + w];
        assert(seg@ == segment(history@, w as nat, dim as nat, t as int));
        match normalized_numerator(window, seg) {
            Some(num) => {
                let den = normalized_denominator(window, seg);
                p.push(ScaledDistance { num, den });
            },
            None => {
                assert(norm_num(window@, segment(history@, w as nat, dim as nat, t as int))
                    > u128::MAX);
                return Err(ProfileError::Overflow);
            },
        }
        t = t + 1;
    }
    Ok(p)
}

/// Zero-padded single-dimension profile, as long as `history`: the distance of
/// the segment that ends at index `i` stands at `i`, and the first
/// `window.len() - 1` entries, where no segment ends, are zero.
pub fn distance_profile_padded(history: &[i32], window: &[i32]) -> (r: Result<
    Vec<u128>,
    ProfileError,
>)
    ensures
        match r {
            Ok(p) => shape_error(history@.len(), window@.len(), 1) is None
                && p@.len() == history@.len()
                && forall|i: int| #![trigger p@[i]] 0 <= i < p@.len() ==> p@[i] == if i + 1 >= window@.len() {
                    raw_entry(history@, window@, 1, i + 1 - window@.len())
                } else {
                    0
                },
            Err(e) => shape_error(history@.len(), window@.len(), 1) == Some(e),
        },
{
    let compact = distance_profile(history, window, 1)?;
    let w = window.len();
    let mut p: Vec<u128> = Vec::new();
    while p.len() + 1 < w
        invariant
            w == window@.len(),
            w <= history@.len(),
            p@.len() + 1 <= w,
            forall|i: int| 0 <= i < p@.len() ==> p@[i] == 0,
        decreases w - p@.len(),
    {
        p.push(0);
    }
    let mut t: usize = 0;
    while t < compact.len()
        invariant
            w == window@.len(),
            1 <= w <= history@.len(),
            is_raw_profile(compact@, history@, window@, 1),
            t <= compact@.len(),
            p@.len() == w - 1 + t,
            forall|i: int| #![trigger p@[i]] 0 <= i < p@.len() ==> p@[i] == if i + 1 >= w {
                raw_entry(history@, window@, 1, i + 1 - w)
            } else {
                0
            },
        decreases compact@.len() - t,
    {
        p.push(compact[t]);
        t = t + 1;
    }
    Ok(p)
}

/// The raw distance profile of `window` against `history`.
pub open spec fn raw_profile(history: Seq<i32>, window: Seq<i32>, dim: nat) -> Seq<u128> {
    Seq::new(
        offset_count(history.len(), window.len(), dim),
        |t: int| raw_entry(history, window, dim, t) as u128,
    )
}

/// The normalized distance profile of `window` against `history`.
pub open spec fn scaled_profile(history: Seq<i32>, window: Seq<i32>, dim: nat) -> Seq<
    ScaledDistance,
> {
    Seq::new(
        offset_count(history.len(), window.len(), dim),
        |t: int|
            ScaledDistance {
                num: norm_num(window, segment(history, window.len(), dim, t)) as u128,
                den: norm_den(window, segment(history, window.len(), dim, t)) as u128,
            },
    )
}

/// The profile that motif search ranks: raw, or normalized.
pub open spec fn profile_is(
    normalize: bool,
    raw: Seq<u128>,
    scaled: Seq<ScaledDistance>,
    history: Seq<i32>,
    window: Seq<i32>,
    dim: nat,
) -> bool {
    if normalize {
        scaled == scaled_profile(history, window, dim)
    } else {
        raw == raw_profile(history, window, dim)
    }
}

/// The normalized profile has an entry beyond `u128::MAX`.
pub open spec fn scaled_overflows(history: Seq<i32>, window: Seq<i32>, dim: nat) -> bool {
    exists|t: int|
        0 <= t < offset_count(history.len(), window.len(), dim) && norm_num(
            window,
            #[trigger] segment(history, window.len(), dim, t),
        ) > u128::MAX
}

proof fn lemma_raw_profile_exact(p: Seq<u128>, history: Seq<i32>, window: Seq<i32>, dim: nat)
    requires
        is_raw_profile(p, history, window, dim),
    ensures
        p == raw_profile(history, window, dim),
{
    assert(p =~= raw_profile(history, window, dim));
}

proof fn lemma_scaled_profile_exact(
    p: Seq<ScaledDistance>,
    history: Seq<i32>,
    window: Seq<i32>,
    dim: nat,
)
    requires
        p.len() == offset_count(history.len(), window.len(), dim),
        forall|t: int|
            0 <= t < p.len() ==> {
                let seg = #[trigger] segment(history, window.len(), dim, t);
                p[t].num == norm_num(window, seg) && p[t].den == norm_den(window, seg)
            },
    ensures
        p == scaled_profile(history, window, dim),
{
    assert forall|t: int| 0 <= t < p.len() implies #[trigger] p[t] == scaled_profile(
        history,
        window,
        dim,
    )[t] by {
        let seg = segment(history, window.len(), dim, t);
        assert(p[t].num == norm_num(window, seg) && p[t].den == norm_den(window, seg));
    }
    assert(p =~= scaled_profile(history, window, dim));
}

/// The timestep offset whose segment is closest to `window`, raw or with both
/// sides min-max normalized; the smallest such offset where several are
/// equally close. Undefined normalized distances, of constant segments, come
/// after every defined one. `None` when the window is longer than the history.
pub fn best_match(history: &[i32], window: &[i32], dim: usize, normalize: bool) -> (r: Result<
    Option<usize>,
    ProfileError,
>)
    ensures
        match r {
            Ok(Some(m)) => shape_error(history@.len(), window@.len(), dim as nat) is None && if normalize {
                is_first_minimum(scaled_profile(history@, window@, dim as nat), m as int)
            } else {
                is_first_minimum(raw_profile(history@, window@, dim as nat), m as int)
            },
            Ok(None) => shape_error(history@.len(), window@.len(), dim as nat) == Some(
                ProfileError::WindowTooLarge,
            ),
            Err(e) => e != ProfileError::WindowTooLarge && if e == ProfileError::Overflow {
                normalize && shape_error(history@.len(), window@.len(), dim as nat) is None
                    && scaled_overflows(history@, window@, dim as nat)
            } else {
                shape_error(history@.len(), window@.len(), dim as nat) == Some(e)
            },
        },
{
    if normalize {
        match distance_profile_normalized(history, window, dim) {
            Ok(p) => {
                proof {
                    lemma_scaled_profile_exact(p@, history@, window@, dim as nat);
                }
                Ok(min_offset(&p))
            },
            Err(ProfileError::WindowTooLarge) => Ok(None),
            Err(e) => Err(e),
        }
    } else {
        match distance_profile(history, window, dim) {
            Ok(p) => {
                proof {
                    lemma_raw_profile_exact(p@, history@, window@, dim as nat);
                }
                Ok(min_offset(&p))
            },
            Err(ProfileError::WindowTooLarge) => Ok(None),
            Err(e) => Err(e),
        }
    }
}

/// Every timestep offset, ranked by ascending distance of its segment to
/// `window`, raw or with both sides min-max normalized; offsets of equal
/// distance come in ascending order, and undefined normalized distances last.
pub fn index_of_motif_iterator(
    history: &[i32],
    window: &[i32],
    dim: usize,
    normalize: bool,
) -> (r: Result<Vec<usize>, ProfileError>)
    ensures
        match r {
            Ok(ranks) => shape_error(history@.len(), window@.len(), dim as nat) is None && if normalize {
                is_ranking(ranks@, scaled_profile(history@, window@, dim as nat))
            } else {
                is_ranking(ranks@, raw_profile(history@, window@, dim as nat))
            },
            Err(e) => if e == ProfileError::Overflow {
                normalize && shape_error(history@.len(), window@.len(), dim as nat) is None
                    && scaled_overflows(history@, window@, dim as nat)
            } else {
                shape_error(history@.len(), window@.len(), dim as nat) == Some(e)
            },
        },
{
    if normalize {
        let p = distance_profile_normalized(history, window, dim)?;
        proof {
            lemma_scaled_profile_exact(p@, history@, window@, dim as nat);
        }
        Ok(rank_offsets(&p))
    } else {
        let p = distance_profile(history, window, dim)?;
        proof {
            lemma_raw_profile_exact(p@, history@, window@, dim as nat);
        }
        Ok(rank_offsets(&p))
    }
}

/// A single-dimension profile has one entry for each position at which the
/// window can start: `h - w + 1`.
pub proof fn lemma_single_dimension_length(h: nat, w: nat)
    requires
        0 < w <= h,
    ensures
        offset_count(h, w, 1) == h - w + 1,
{
}

/// The raw profile is a function of its inputs: two profiles computed from the
/// same history, window and dimension are equal.
pub proof fn lemma_raw_profile_deterministic(
    p1: Seq<u128>,
    p2: Seq<u128>,
    history: Seq<i32>,
    window: Seq<i32>,
    dim: nat,
)
    requires
        is_raw_profile(p1, history, window, dim),
        is_raw_profile(p2, history, window, dim),
    ensures
        p1 == p2,
{
    assert(p1 =~= p2);
}

} // verus!
