//! Median smoothing of a pitch track.

use vstd::prelude::*;
use crate::binary32::{Binary32, total_key, lemma_total_key_injective};
use crate::sorting::{order_of, sort_total, TotalOrder};

verus! {

/// Frames in the median filter's window, centred on the frame itself.
pub const MEDIAN_WINDOW: usize = 5;

/// The values of the voiced (`Some`) frames of `s`, in order.
pub open spec fn voiced_values(s: Seq<Option<Binary32>>) -> Seq<Binary32>
    decreases s.len(),
{
    if s.len() == 0 {
        Seq::empty()
    } else {
        let rest = voiced_values(s.drop_last());
        match s.last() {
            Some(v) => rest.push(v),
            None => rest,
        }
    }
}

/// The middle element of `w` in the total order (the upper middle one when
/// `w` has even length).
pub open spec fn median_spec(w: Seq<Binary32>) -> Binary32 {
    w.sort_by(order_of::<Binary32>())[(w.len() / 2) as int]
}

proof fn lemma_count_once(w: Seq<Binary32>, j: int)
    requires
        0 <= j < w.len(),
        forall|k: int| 0 <= k < w.len() && k != j ==> #[trigger] w[k] != w[j],
    ensures
        w.to_multiset().count(w[j]) == 1,
{
    broadcast use vstd::seq_lib::group_to_multiset_ensures;
    broadcast use vstd::multiset::group_multiset_axioms;

    let a = w.take(j);
    let b = w.skip(j + 1);
    assert(w =~= a.push(w[j]) + b);
    vstd::seq_lib::lemma_multiset_commutative(a.push(w[j]), b);
    assert(!a.contains(w[j]));
    assert(!b.contains(w[j]));
}

proof fn lemma_count_twice(s: Seq<Binary32>, p: int, q: int)
    requires
        0 <= p < q < s.len(),
        s[p] == s[q],
    ensures
        s.to_multiset().count(s[p]) >= 2,
{
    broadcast use vstd::seq_lib::group_to_multiset_ensures;
    broadcast use vstd::multiset::group_multiset_axioms;

    let a = s.take(q);
    let b = s.skip(q + 1);
    assert(s =~= a.push(s[q]) + b);
    vstd::seq_lib::lemma_multiset_commutative(a.push(s[q]), b);
    assert(a[p] == s[p]);
    assert(a.contains(s[p]));
}

/// One wrong value cannot be the median: in a window of three or more
/// values, a value that lies strictly above every other one, or strictly
/// below every other one, in the total order, is never the median.
pub proof fn lemma_median_not_outlier(w: Seq<Binary32>, j: int)
    requires
        w.len() >= 3,
        0 <= j < w.len(),
        (forall|k: int| 0 <= k < w.len() && k != j ==> total_key(#[trigger] w[k].bits) < total_key(w[j].bits))
            || (forall|k: int|
            0 <= k < w.len() && k != j ==> total_key(#[trigger] w[k].bits) > total_key(w[j].bits)),
    ensures
        median_spec(w) != w[j],
{
    broadcast use vstd::seq_lib::group_to_multiset_ensures;
    broadcast use vstd::multiset::group_multiset_axioms;

    let leq = order_of::<Binary32>();
    Binary32::lemma_total();
    w.lemma_sort_by_ensures(leq);
    let s = w.sort_by(leq);
    let m = (w.len() / 2) as int;
    assert(s.to_multiset().len() == s.len());
    assert(w.to_multiset().len() == w.len());
    if median_spec(w) == w[j] {
        assert(s[m] == w[j]);
        assert forall|k: int| 0 <= k < w.len() && k != j implies #[trigger] w[k] != w[j] by {
            lemma_total_key_injective(w[k].bits, w[j].bits);
        }
        lemma_count_once(w, j);
        let high = forall|k: int|
            0 <= k < w.len() && k != j ==> total_key(#[trigger] w[k].bits) < total_key(w[j].bits);
        let e = if high { s.len() - 1 } else { 0 };
        assert(s.to_multiset().count(s[e]) > 0);
        assert(w.contains(s[e]));
        let k = choose|k: int| 0 <= k < w.len() && w[k] == s[e];
        if high {
            assert(leq(s[m], s[e]));
        } else {
            assert(leq(s[e], s[m]));
        }
        if k == j {
            if high {
                lemma_count_twice(s, m, e);
            } else {
                lemma_count_twice(s, e, m);
            }
        }
    }
}

/// The median of a window is one of the window's values.
pub proof fn lemma_median_in_window(w: Seq<Binary32>)
    requires
        w.len() > 0,
    ensures
        w.contains(median_spec(w)),
{
    broadcast use vstd::seq_lib::group_to_multiset_ensures;

    let leq = order_of::<Binary32>();
    Binary32::lemma_total();
    w.lemma_sort_by_ensures(leq);
    let s = w.sort_by(leq);
    assert(s.to_multiset().len() == s.len());
    assert(w.to_multiset().len() == w.len());
    assert(s.to_multiset().count(s[(w.len() / 2) as int]) > 0);
}

/// First frame of the window around frame `i`.
pub open spec fn window_lo(i: int) -> int {
    if i >= (MEDIAN_WINDOW / 2) as int {
        i - (MEDIAN_WINDOW / 2) as int
    } else {
        0
    }
}

/// One past the last frame of the window around frame `i` of `n`.
pub open spec fn window_hi(i: int, n: int) -> int {
    if i + (MEDIAN_WINDOW / 2) as int + 1 <= n {
        i + (MEDIAN_WINDOW / 2) as int + 1
    } else {
        n
    }
}

/// The filtered track: an unvoiced frame stays unvoiced; a voiced one takes
/// the median of the voiced frames in its window.
pub open spec fn median_filter_spec(track: Seq<Option<Binary32>>) -> Seq<Option<Binary32>> {
    Seq::new(
        track.len(),
        |i: int|
            if track[i] is None {
                None
            } else {
                Some(
                    median_spec(
                        voiced_values(track.subrange(window_lo(i), window_hi(i, track.len() as int))),
                    ),
                )
            },
    )
}

/// The median of a non-empty list, in the total order.
pub fn median(w: &[Binary32]) -> (m: Binary32)
    requires
        w@.len() > 0,
    ensures
        m == median_spec(w@),
{
    let sorted = sort_total(w);
    sorted[sorted.len() / 2]
}

proof fn lemma_voiced_values_step(s: Seq<Option<Binary32>>, lo: int, j: int)
    requires
        0 <= lo <= j < s.len(),
    ensures
        voiced_values(s.subrange(lo, j + 1)) == match s[j] {
            Some(v) => voiced_values(s.subrange(lo, j)).push(v),
            None => voiced_values(s.subrange(lo, j)),
        },
{
    assert(s.subrange(lo, j + 1).drop_last() =~= s.subrange(lo, j));
}

/// Replaces each voiced frame by the median of the voiced frames within two
/// frames of it; unvoiced frames stay unvoiced.
pub fn median_filter(track: &[Option<Binary32>]) -> (r: Vec<Option<Binary32>>)
    ensures
        r@ == median_filter_spec(track@),
{
    let n = track.len();
    let mut out: Vec<Option<Binary32>> = Vec::new();
    for i in 0..n
        invariant
            n == track@.len(),
            out@.len() == i,
            forall|k: int| 0 <= k < i ==> #[trigger] out@[k] == median_filter_spec(track@)[k],
    {
        match track[i] {
            None => {
                out.push(None);
            },
            Some(_) => {
                let lo = if i >= MEDIAN_WINDOW / 2 {
                    i - MEDIAN_WINDOW / 2
                } else {
                    0
                };
                let hi = if n - i > MEDIAN_WINDOW / 2 {
                    i + MEDIAN_WINDOW / 2 + 1
                } else {
                    n
                };
                let mut window: Vec<Binary32> = Vec::new();
                let mut j = lo;
                assert(track@.subrange(lo as int, lo as int) =~= Seq::<Option<Binary32>>::empty());
                while j < hi
                    invariant
                        n == track@.len(),
                        lo <= i < hi <= n,
                        lo <= j <= hi,
                        track@[i as int] is Some,
                        window@ == voiced_values(track@.subrange(lo as int, j as int)),
                        j > i ==> window@.len() > 0,
                    decreases hi - j,
                {
                    proof {
                        lemma_voiced_values_step(track@, lo as int, j as int);
                    }
                    if let Some(v) = track[j] {
                        window.push(v);
                    }
                    j = j + 1;
                }
                let m = median(&window);
                out.push(Some(m));
            },
        }
    }
    assert(out@ =~= median_filter_spec(track@));
    out
}

/// How many frames of the track are voiced.
pub fn voiced_count(track: &[Option<Binary32>]) -> (n: usize)
    ensures
        n == voiced_values(track@).len(),
{
    let mut n: usize = 0;
    for i in 0..track.len()
        invariant
            n == voiced_values(track@.subrange(0, i as int)).len(),
            n <= i,
    {
        proof {
            assert(track@.subrange(0, i + 1).drop_last() =~= track@.subrange(0, i as int));
        }
        if track[i].is_some() {
            n = n + 1;
        }
    }
    assert(track@.subrange(0, track@.len() as int) =~= track@);
    n
}

proof fn lemma_voiced_values_concat(a: Seq<Option<Binary32>>, b: Seq<Option<Binary32>>)
    ensures
        voiced_values(a + b) == voiced_values(a) + voiced_values(b),
    decreases b.len(),
{
    if b.len() == 0 {
        assert(a + b =~= a);
        assert(voiced_values(a) + voiced_values(b) =~= voiced_values(a));
    } else {
        lemma_voiced_values_concat(a, b.drop_last());
        assert((a + b).drop_last() =~= a + b.drop_last());
        assert((a + b).last() == b.last());
        match b.last() {
            Some(v) => {
                assert(voiced_values(a) + voiced_values(b) =~= (voiced_values(a) + voiced_values(
                    b.drop_last(),
                )).push(v));
            },
            None => {},
        }
    }
}

proof fn lemma_voiced_values_from(t: Seq<Option<Binary32>>, m: int)
    requires
        0 <= m < voiced_values(t).len(),
    ensures
        exists|k: int| 0 <= k < t.len() && t[k] == Some(#[trigger] voiced_values(t)[m]),
    decreases t.len(),
{
    let prev = voiced_values(t.drop_last());
    if m < prev.len() {
        lemma_voiced_values_from(t.drop_last(), m);
        let k = choose|k: int| 0 <= k < t.drop_last().len() && t.drop_last()[k] == Some(prev[m]);
        assert(t[k] == t.drop_last()[k]);
        assert(voiced_values(t)[m] == prev[m]);
    } else {
        assert(t[t.len() - 1] == t.last());
    }
}

/// A single wrong frame does not survive the filter: when a voiced frame's
/// pitch lies strictly above every other voiced pitch of its window, or
/// strictly below every one, in the total order, and the window holds at
/// least three voiced frames, the filtered frame takes another value.
pub proof fn lemma_median_filter_drops_slip(track: Seq<Option<Binary32>>, i: int)
    requires
        0 <= i < track.len(),
        track[i] is Some,
        voiced_values(track.subrange(window_lo(i), window_hi(i, track.len() as int))).len() >= 3,
        (forall|k: int|
            window_lo(i) <= k < window_hi(i, track.len() as int) && k != i && #[trigger] track[k] is Some
                ==> total_key(track[k]->0.bits) < total_key(track[i]->0.bits)) || (forall|k: int|
            window_lo(i) <= k < window_hi(i, track.len() as int) && k != i && #[trigger] track[k] is Some
                ==> total_key(track[k]->0.bits) > total_key(track[i]->0.bits)),
    ensures
        median_filter_spec(track)[i] != track[i],
{
    let lo = window_lo(i);
    let hi = window_hi(i, track.len() as int);
    let s = track.subrange(lo, hi);
    let p = i - lo;
    let v = track[i]->0;
    let before = s.take(p);
    let after = s.skip(p + 1);
    assert(s =~= before + seq![Some(v)] + after);
    lemma_voiced_values_concat(before + seq![Some(v)], after);
    lemma_voiced_values_concat(before, seq![Some(v)]);
    assert(voiced_values(seq![Some(v)]) =~= seq![v]) by {
        let one = seq![Some(v)];
        assert(one.drop_last() =~= Seq::<Option<Binary32>>::empty());
        assert(voiced_values(one.drop_last()) =~= Seq::<Binary32>::empty());
        assert(one.last() == Some(v));
    }
    let w = voiced_values(s);
    let vb = voiced_values(before);
    let va = voiced_values(after);
    assert(w =~= vb + seq![v] + va);
    let j = vb.len() as int;
    assert(w[j] == v);
    let high = forall|k: int|
        lo <= k < hi && k != i && #[trigger] track[k] is Some ==> total_key(track[k]->0.bits) < total_key(
            track[i]->0.bits,
        );
    assert forall|m: int| 0 <= m < w.len() && m != j implies (if high {
        total_key(#[trigger] w[m].bits) < total_key(w[j].bits)
    } else {
        total_key(w[m].bits) > total_key(w[j].bits)
    }) by {
        if m < j {
            assert(w[m] == vb[m]);
            lemma_voiced_values_from(before, m);
            let k = choose|k: int| 0 <= k < before.len() && before[k] == Some(vb[m]);
            assert(track[lo + k] == before[k]);
        } else {
            assert(w[m] == va[m - j - 1]);
            lemma_voiced_values_from(after, m - j - 1);
            let k = choose|k: int| 0 <= k < after.len() && after[k] == Some(va[m - j - 1]);
            assert(track[i + 1 + k] == after[k]);
        }
    }
    if high {
        assert forall|m: int| 0 <= m < w.len() && m != j implies total_key(#[trigger] w[m].bits) < total_key(
            w[j].bits,
        ) by {}
    } else {
        assert forall|m: int| 0 <= m < w.len() && m != j implies total_key(#[trigger] w[m].bits) > total_key(
            w[j].bits,
        ) by {}
    }
    lemma_median_not_outlier(w, j);
    assert(median_filter_spec(track)[i] == Some(median_spec(w)));
}

} // verus!
