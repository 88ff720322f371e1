//! The discrete steps of pitch tracking: which windows of a recording are
//! analysed, which lag of the YIN difference function is taken as the
//! period, and which frames count as voiced.

use vstd::prelude::*;
use crate::binary32::{Binary32, lt_bits, total_key};

verus! {

/// Samples in one analysis window.
pub const WINDOW_SIZE: usize = 4096;

/// Samples between the starts of consecutive windows.
pub const HOP_SIZE: usize = 1024;

/// Bit pattern of 0.25, the normalised difference below which a lag is a
/// candidate period.
pub const YIN_THRESHOLD_BITS: u32 = 0x3e80_0000;

/// Bit pattern of 0.30, the normalised difference below which a frame is
/// voiced.
pub const VOICED_MAX_CMNDF_BITS: u32 = 0x3e99_999a;

/// Number of whole windows in `len` samples.
pub open spec fn frame_count(len: int) -> int {
    if len >= WINDOW_SIZE {
        (len - WINDOW_SIZE) / (HOP_SIZE as int) + 1
    } else {
        0
    }
}

/// Where each analysis window of a recording of `len` samples starts: every
/// multiple of `HOP_SIZE` from which a whole window still fits, in order.
pub fn frame_starts(len: usize) -> (starts: Vec<usize>)
    ensures
        starts@.len() == frame_count(len as int),
        forall|k: int| 0 <= k < starts@.len() ==> #[trigger] starts@[k] == k * HOP_SIZE,
        forall|k: int| 0 <= k < starts@.len() ==> #[trigger] starts@[k] + WINDOW_SIZE <= len,
{
    let mut starts: Vec<usize> = Vec::new();
    let mut start: usize = 0;
    while start <= len && len - start >= WINDOW_SIZE
        invariant
            start == starts@.len() * HOP_SIZE,
            start <= len + HOP_SIZE,
            len >= WINDOW_SIZE ==> starts@.len() <= frame_count(len as int),
            len < WINDOW_SIZE ==> starts@.len() == 0,
            forall|k: int| 0 <= k < starts@.len() ==> #[trigger] starts@[k] == k * HOP_SIZE,
            forall|k: int| 0 <= k < starts@.len() ==> #[trigger] starts@[k] + WINDOW_SIZE <= len,
        decreases len + HOP_SIZE - start,
    {
        starts.push(start);
        start = start + HOP_SIZE;
    }
    starts
}

/// The first lag from `lo` to `hi` whose normalised difference is below
/// `threshold` (by the `<` of binary32 values).
pub open spec fn first_below(c: Seq<Binary32>, lo: int, hi: int, threshold: u32) -> Option<int>
    decreases hi + 1 - lo,
{
    if lo > hi {
        None
    } else if lt_bits(c[lo].bits, threshold) {
        Some(lo)
    } else {
        first_below(c, lo + 1, hi, threshold)
    }
}

/// Walking from lag `b` towards `hi` while the next lag is lower: the bottom
/// of the valley that `b` lies in.
pub open spec fn valley_floor(c: Seq<Binary32>, b: int, hi: int) -> int
    decreases hi - b,
{
    if b + 1 <= hi && lt_bits(c[b + 1].bits, c[b].bits) {
        valley_floor(c, b + 1, hi)
    } else {
        b
    }
}

/// `m` is the first lag from `lo` to `hi` with the least value in the total
/// order.
pub open spec fn is_first_min(c: Seq<Binary32>, lo: int, hi: int, m: int) -> bool {
    &&& lo <= m <= hi
    &&& forall|j: int| lo <= j <= hi ==> total_key(c[m].bits) <= total_key(#[trigger] c[j].bits)
    &&& forall|j: int| lo <= j < m ==> total_key(c[m].bits) < total_key(#[trigger] c[j].bits)
}

/// The lag that YIN takes as the period, given the normalised difference of
/// every lag: the floor of the first valley that dips below the threshold,
/// or, when none does, the first lag with the least value.
pub fn select_lag(cmndf: &[Binary32], min_lag: usize, max_lag: usize) -> (lag: usize)
    requires
        min_lag <= max_lag < cmndf@.len(),
    ensures
        min_lag <= lag <= max_lag,
        match first_below(cmndf@, min_lag as int, max_lag as int, YIN_THRESHOLD_BITS) {
            Some(d) => lag == valley_floor(cmndf@, d, max_lag as int),
            None => is_first_min(cmndf@, min_lag as int, max_lag as int, lag as int),
        },
{
    let threshold = Binary32 { bits: YIN_THRESHOLD_BITS };
    let mut lag = min_lag;
    while lag <= max_lag
        invariant
            min_lag <= lag <= max_lag + 1,
            max_lag < cmndf@.len(),
            threshold.bits == YIN_THRESHOLD_BITS,
            first_below(cmndf@, min_lag as int, max_lag as int, YIN_THRESHOLD_BITS)
                == first_below(cmndf@, lag as int, max_lag as int, YIN_THRESHOLD_BITS),
        decreases max_lag + 1 - lag,
    {
        if cmndf[lag].lt(threshold) {
            assert(first_below(cmndf@, lag as int, max_lag as int, YIN_THRESHOLD_BITS) == Some(
                lag as int,
            ));
            let mut best = lag;
            while best < max_lag && cmndf[best + 1].lt(cmndf[best])
                invariant
                    lag <= best <= max_lag,
                    max_lag < cmndf@.len(),
                    valley_floor(cmndf@, lag as int, max_lag as int) == valley_floor(
                        cmndf@,
                        best as int,
                        max_lag as int,
                    ),
                decreases max_lag - best,
            {
                best = best + 1;
            }
            assert(valley_floor(cmndf@, best as int, max_lag as int) == best);
            return best;
        }
        assert(first_below(cmndf@, lag as int, max_lag as int, YIN_THRESHOLD_BITS) == first_below(
            cmndf@,
            lag + 1,
            max_lag as int,
            YIN_THRESHOLD_BITS,
        ));
        lag = lag + 1;
    }
    let mut best = min_lag;
    let mut j = min_lag + 1;
    while j <= max_lag
        invariant
            min_lag <= best < j <= max_lag + 1,
            max_lag < cmndf@.len(),
            forall|k: int| min_lag <= k < j ==> total_key(cmndf@[best as int].bits) <= total_key(
                #[trigger] cmndf@[k].bits,
            ),
            forall|k: int| min_lag <= k < best ==> total_key(cmndf@[best as int].bits) < total_key(
                #[trigger] cmndf@[k].bits,
            ),
        decreases max_lag + 1 - j,
    {
        if cmndf[j].total_key() < cmndf[best].total_key() {
            best = j;
        }
        j = j + 1;
    }
    best
}

proof fn lemma_first_below(c: Seq<Binary32>, lo: int, hi: int, t: u32)
    ensures
        first_below(c, lo, hi, t) matches Some(d) ==> lo <= d <= hi && lt_bits(c[d].bits, t) && (
        forall|j: int| lo <= j < d ==> !lt_bits(#[trigger] c[j].bits, t)),
        first_below(c, lo, hi, t) is None ==> forall|j: int|
            lo <= j <= hi ==> !lt_bits(#[trigger] c[j].bits, t),
    decreases hi + 1 - lo,
{
    if lo <= hi && !lt_bits(c[lo].bits, t) {
        lemma_first_below(c, lo + 1, hi, t);
    }
}

proof fn lemma_valley_floor(c: Seq<Binary32>, b: int, hi: int, t: u32)
    requires
        0 <= b <= hi < c.len(),
        lt_bits(c[b].bits, t),
    ensures
        b <= valley_floor(c, b, hi) <= hi,
        lt_bits(c[valley_floor(c, b, hi)].bits, t),
        !(valley_floor(c, b, hi) + 1 <= hi && lt_bits(
            c[valley_floor(c, b, hi) + 1].bits,
            c[valley_floor(c, b, hi)].bits,
        )),
    decreases hi - b,
{
    if b + 1 <= hi && lt_bits(c[b + 1].bits, c[b].bits) {
        lemma_valley_floor(c, b + 1, hi, t);
    }
}

/// What YIN's choice promises: when some lag in range dips below the
/// threshold, the chosen lag comes at or after the first lag that does, is
/// itself below the threshold, and the lag after it is not lower (it is the
/// floor of its valley, not the falling edge); when none does, it is the
/// first lag with the least value.
pub proof fn lemma_select_lag_dips(cmndf: Seq<Binary32>, min_lag: int, max_lag: int, lag: int)
    requires
        0 <= min_lag <= max_lag < cmndf.len(),
        match first_below(cmndf, min_lag, max_lag, YIN_THRESHOLD_BITS) {
            Some(d) => lag == valley_floor(cmndf, d, max_lag),
            None => is_first_min(cmndf, min_lag, max_lag, lag),
        },
    ensures
        min_lag <= lag <= max_lag,
        (exists|j: int| min_lag <= j <= max_lag && lt_bits(#[trigger] cmndf[j].bits, YIN_THRESHOLD_BITS))
            ==> {
            &&& lt_bits(cmndf[lag].bits, YIN_THRESHOLD_BITS)
            &&& exists|d: int|
                min_lag <= d <= lag && lt_bits(#[trigger] cmndf[d].bits, YIN_THRESHOLD_BITS) && forall|j: int|
                    min_lag <= j < d ==> !lt_bits(#[trigger] cmndf[j].bits, YIN_THRESHOLD_BITS)
            &&& !(lag + 1 <= max_lag && lt_bits(cmndf[lag + 1].bits, cmndf[lag].bits))
        },
        (forall|j: int| min_lag <= j <= max_lag ==> !lt_bits(#[trigger] cmndf[j].bits, YIN_THRESHOLD_BITS))
            ==> is_first_min(cmndf, min_lag, max_lag, lag),
{
    lemma_first_below(cmndf, min_lag, max_lag, YIN_THRESHOLD_BITS);
    if let Some(d) = first_below(cmndf, min_lag, max_lag, YIN_THRESHOLD_BITS) {
        lemma_valley_floor(cmndf, d, max_lag, YIN_THRESHOLD_BITS);
        assert(lt_bits(cmndf[d].bits, YIN_THRESHOLD_BITS));
    }
}

/// The pitch of each frame whose estimate is voiced — confidence below 0.30
/// and frequency above zero, by the `<` of binary32 values — and `None` for
/// every other frame.
pub open spec fn voiced_pitches_spec(pitches: Seq<(Binary32, Binary32)>) -> Seq<Option<Binary32>> {
    Seq::new(
        pitches.len(),
        |i: int|
            if lt_bits(pitches[i].1.bits, VOICED_MAX_CMNDF_BITS) && lt_bits(0, pitches[i].0.bits) {
                Some(pitches[i].0)
            } else {
                None
            },
    )
}

/// Keeps the frequency of each voiced `(frequency, confidence)` estimate and
/// drops the rest.
pub fn voiced_pitches(pitches: &[(Binary32, Binary32)]) -> (r: Vec<Option<Binary32>>)
    ensures
        r@ == voiced_pitches_spec(pitches@),
{
    let limit = Binary32 { bits: VOICED_MAX_CMNDF_BITS };
    let zero = Binary32 { bits: 0 };
    let mut r: Vec<Option<Binary32>> = Vec::new();
    for i in 0..pitches.len()
        invariant
            r@.len() == i,
            limit.bits == VOICED_MAX_CMNDF_BITS,
            zero.bits == 0,
            forall|k: int| 0 <= k < i ==> #[trigger] r@[k] == voiced_pitches_spec(pitches@)[k],
    {
        let hz = pitches[i].0;
        let confidence = pitches[i].1;
        if confidence.lt(limit) && zero.lt(hz) {
            r.push(Some(hz));
        } else {
            r.push(None);
        }
    }
    assert(r@ =~= voiced_pitches_spec(pitches@));
    r
}

} // verus!
