//! Motif extraction: the offset of the smallest distance of a profile, and all
//! offsets ranked by ascending distance, ties broken by ascending offset.
use vstd::prelude::*;

verus! {

/// A distance that profiles hold, compared by a total preorder.
pub trait Distance: Sized {
    /// `self` is no greater than `other`.
    spec fn at_most(&self, other: &Self) -> bool;

    /// Decides `at_most`.
    fn le(&self, other: &Self) -> (r: bool)
        ensures
            r == self.at_most(other),
    ;

    /// `at_most` is total and transitive.
    proof fn lemma_total_preorder(a: &Self, b: &Self, c: &Self)
        ensures
            a.at_most(b) || b.at_most(a),
            a.at_most(b) && b.at_most(c) ==> a.at_most(c),
    ;
}

impl Distance for u128 {
    open spec fn at_most(&self, other: &u128) -> bool {
        *self <= *other
    }

    fn le(&self, other: &u128) -> (r: bool) {
        *self <= *other
    }

    proof fn lemma_total_preorder(a: &u128, b: &u128, c: &u128) {
    }
}

/// Offset `i` ranks before offset `j` in profile `p`: its distance is smaller,
/// or equivalent with a smaller offset.
pub open spec fn ranks_before<D: Distance>(p: Seq<D>, i: int, j: int) -> bool {
    p[i].at_most(&p[j]) && (i < j || !p[j].at_most(&p[i]))
}

/// `r` lists every offset of `p` once, in ranking order.
pub open spec fn is_ranking<D: Distance>(r: Seq<usize>, p: Seq<D>) -> bool {
    &&& r.len() == p.len()
    &&& forall|k: int| 0 <= k < r.len() ==> r[k] < p.len()
    &&& forall|v: usize| v < p.len() ==> #[trigger] r.contains(v)
    &&& forall|k: int, l: int|
        0 <= k < l < r.len() ==> ranks_before(p, r[k] as int, r[l] as int)
}

/// `m` is the first offset of `p` with the smallest distance.
pub open spec fn is_first_minimum<D: Distance>(p: Seq<D>, m: int) -> bool {
    &&& 0 <= m < p.len()
    &&& forall|t: int| 0 <= t < p.len() ==> p[m].at_most(&p[t])
    &&& forall|t: int| 0 <= t < m ==> !p[t].at_most(&p[m])
}

/// All offsets of `profile`, ranked by ascending distance; offsets of
/// equivalent distance come in ascending order.
pub fn rank_offsets<D: Distance>(profile: &Vec<D>) -> (r: Vec<usize>)
    ensures
        is_ranking(r@, profile@),
{
    let n = profile.len();
    let mut r: Vec<usize> = Vec::new();
    let mut j: usize = 0;
    while j < n
        invariant
            n == profile@.len(),
            j <= n,
            r@.len() == j,
            forall|k: int| 0 <= k < r@.len() ==> r@[k] < j,
            forall|v: usize| v < j ==> #[trigger] r@.contains(v),
            forall|k: int, l: int|
                0 <= k < l < r@.len() ==> ranks_before(profile@, r@[k] as int, r@[l] as int),
        decreases n - j,
    {
        let dj = &profile[j];
        let mut pos: usize = 0;
        while pos < r.len() && profile[r[pos]].le(dj)
            invariant
                n == profile@.len(),
                j < n,
                *dj == profile@[j as int],
                pos <= r@.len(),
                forall|k: int| 0 <= k < r@.len() ==> r@[k] < j,
                forall|k: int| 0 <= k < pos ==> profile@[r@[k] as int].at_most(dj),
            decreases r@.len() - pos,
        {
            pos = pos + 1;
        }
        let ghost old_r = r@;
        let ghost p = profile@;
        proof {
            assert forall|k: int| pos <= k < old_r.len() implies ranks_before(
                p,
                j as int,
                old_r[k] as int,
            ) by {
                let first = p[old_r[pos as int] as int];
                let other = p[old_r[k] as int];
                D::lemma_total_preorder(dj, &first, &other);
                D::lemma_total_preorder(&first, &other, dj);
                D::lemma_total_preorder(&other, dj, &first);
                if k > pos {
                    assert(ranks_before(p, old_r[pos as int] as int, old_r[k] as int));
                }
            }
        }
        r.insert(pos, j);
        proof {
            old_r.insert_ensures(pos as int, j);
            assert forall|v: usize| v < j + 1 implies #[trigger] r@.contains(v) by {
                if v < j {
                    assert(old_r.contains(v));
                    let k = choose|k: int| 0 <= k < old_r.len() && old_r[k] == v;
                    if k < pos {
                        assert(r@[k] == v);
                    } else {
                        assert(r@[k + 1] == v);
                    }
                } else {
                    assert(r@[pos as int] == v);
                }
            }
            assert forall|k: int, l: int| 0 <= k < l < r@.len() implies ranks_before(
                p,
                r@[k] as int,
                r@[l] as int,
            ) by {
                let ok = if k < pos { k } else { k - 1 };
                let ol = if l < pos { l } else { l - 1 };
                if k != pos && l != pos {
                    assert(r@[k] == old_r[ok]);
                    assert(r@[l] == old_r[ol]);
                    assert(ranks_before(p, old_r[ok] as int, old_r[ol] as int));
                } else if k == pos {
                    assert(r@[l] == old_r[ol]);
                } else {
                    assert(r@[k] == old_r[ok]);
                }
            }
            assert forall|k: int| 0 <= k < r@.len() implies r@[k] < j + 1 by {
                if k < pos {
                    assert(r@[k] == old_r[k]);
                } else if k > pos {
                    assert(r@[k] == old_r[k - 1]);
                }
            }
        }
        j = j + 1;
    }
    r
}

/// The first offset of `profile` with the smallest distance, or `None` when
/// the profile is empty.
pub fn min_offset<D: Distance>(profile: &Vec<D>) -> (r: Option<usize>)
    ensures
        match r {
            Some(m) => is_first_minimum(profile@, m as int),
            None => profile@.len() == 0,
        },
{
    let n = profile.len();
    if n == 0 {
        return None;
    }
    let mut best: usize = 0;
    let mut t: usize = 1;
    proof {
        D::lemma_total_preorder(&profile@[0], &profile@[0], &profile@[0]);
    }
    while t < n
        invariant
            n == profile@.len(),
            1 <= t <= n,
            best < t,
            forall|u: int| 0 <= u < t ==> profile@[best as int].at_most(&profile@[u]),
            forall|u: int| 0 <= u < best ==> !profile@[u].at_most(&profile@[best as int]),
        decreases n - t,
    {
        if !profile[best].le(&profile[t]) {
            proof {
                let p = profile@;
                assert forall|u: int| 0 <= u < t implies p[t as int].at_most(&p[u]) && (u < t ==> !p[u].at_most(&p[t as int])) by {
                    D::lemma_total_preorder(&p[best as int], &p[t as int], &p[u]);
                    D::lemma_total_preorder(&p[t as int], &p[best as int], &p[u]);
                    D::lemma_total_preorder(&p[best as int], &p[u], &p[t as int]);
                }
                D::lemma_total_preorder(&p[t as int], &p[t as int], &p[t as int]);
            }
            best = t;
        }
        t = t + 1;
    }
    Some(best)
}

} // verus!
