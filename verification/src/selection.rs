//! Choosing among scored candidates: which entries a query is matched
//! against, which one a scan keeps as the best, which come out on top, and which
//! channel entry of a file carries the melody.

use vstd::prelude::*;
use crate::binary32::{Binary32, lt_bits, le_bits, ge_bits, is_nan_bits, total_key};
use crate::sorting::{rank_by_cost, ranking_spec};

verus! {

/// How many results a corpus search reports.
pub const MAX_RESULTS: usize = 10;

/// The channel that General MIDI reserves for drums (channel 10, counted
/// from zero).
pub const DRUM_CHANNEL: u8 = 9;

/// The lowest mean key of a singable line (45.0).
pub const LOWEST_MEAN_KEY_BITS: u32 = 0x4234_0000;

/// The highest mean key of a singable line (84.0).
pub const HIGHEST_MEAN_KEY_BITS: u32 = 0x42a8_0000;

/// The fewest notes a channel needs to be taken for a melody when a file is
/// inspected.
pub const MIN_MELODY_NOTES: usize = 8;

/// The fewest notes a channel needs to serve as a probe when a folder of
/// files is checked against itself.
pub const MIN_PROBE_NOTES: usize = 40;

/// The pick of a scan over the first `k` scores that starts with the first
/// and moves only to a score strictly lower (by `<`) than the one it holds.
pub open spec fn running_best(costs: Seq<Binary32>, k: int) -> Option<int>
    decreases k,
{
    if k <= 0 {
        None
    } else {
        match running_best(costs, k - 1) {
            None => Some(k - 1),
            Some(j) => if lt_bits(costs[k - 1].bits, costs[j].bits) {
                Some(k - 1)
            } else {
                Some(j)
            },
        }
    }
}

/// No score is a NaN.
pub open spec fn no_nan(costs: Seq<Binary32>) -> bool {
    forall|i: int| 0 <= i < costs.len() ==> !is_nan_bits(#[trigger] costs[i].bits)
}

proof fn lemma_running_best(costs: Seq<Binary32>, k: int)
    requires
        0 <= k <= costs.len(),
    ensures
        k == 0 <==> running_best(costs, k) is None,
        running_best(costs, k) matches Some(b) ==> {
            &&& 0 <= b < k
            &&& no_nan(costs.subrange(0, k)) ==> {
                &&& forall|i: int| 0 <= i < k ==> !lt_bits(#[trigger] costs[i].bits, costs[b].bits)
                &&& forall|i: int| 0 <= i < b ==> lt_bits(costs[b].bits, #[trigger] costs[i].bits)
            }
        },
    decreases k,
{
    if k > 0 {
        lemma_running_best(costs, k - 1);
        if no_nan(costs.subrange(0, k)) {
            assert forall|i: int| 0 <= i < k - 1 implies !is_nan_bits(
                #[trigger] costs.subrange(0, k - 1)[i].bits,
            ) by {
                assert(costs.subrange(0, k - 1)[i] == costs.subrange(0, k)[i]);
            }
            assert forall|i: int| 0 <= i < k implies !is_nan_bits(#[trigger] costs[i].bits) by {
                assert(costs.subrange(0, k)[i] == costs[i]);
            }
        }
    }
}

/// The position a scan keeps as the best score: the first score, replaced
/// by each later one that is strictly lower by `<`. When no score is a
/// NaN, that is the first of the lowest scores.
pub fn best_scored(costs: &[Binary32]) -> (r: Option<usize>)
    ensures
        r is None <==> costs@.len() == 0,
        match running_best(costs@, costs@.len() as int) {
            None => r is None,
            Some(j) => r == Some(j as usize),
        },
        no_nan(costs@) ==> (r matches Some(b) ==> {
            &&& forall|i: int| 0 <= i < costs@.len() ==> !lt_bits(#[trigger] costs@[i].bits, costs@[b as int].bits)
            &&& forall|i: int| 0 <= i < b ==> lt_bits(costs@[b as int].bits, #[trigger] costs@[i].bits)
        }),
{
    let mut best: Option<usize> = None;
    for i in 0..costs.len()
        invariant
            best == (match running_best(costs@, i as int) {
                None => None::<usize>,
                Some(j) => Some(j as usize),
            }),
            running_best(costs@, i as int) matches Some(j) ==> 0 <= j < i,
    {
        proof {
            lemma_running_best(costs@, i as int);
        }
        match best {
            None => {
                best = Some(i);
            },
            Some(b) => {
                if costs[i].lt(costs[b]) {
                    best = Some(i);
                }
            },
        }
    }
    proof {
        lemma_running_best(costs@, costs@.len() as int);
        assert(costs@.subrange(0, costs@.len() as int) =~= costs@);
    }
    best
}

/// The positions of the `limit` lowest scores (all of them when there are
/// fewer), cheapest first by the total order, ties in their original order.
pub fn top_ranked(costs: &[Binary32], limit: usize) -> (r: Vec<usize>)
    ensures
        r@ == ranking_spec(costs@).take(
            if limit < costs@.len() {
                limit as int
            } else {
                costs@.len() as int
            },
        ),
{
    let ranked = rank_by_cost(costs);
    let n = if limit < ranked.len() {
        limit
    } else {
        ranked.len()
    };
    let mut r: Vec<usize> = Vec::new();
    for i in 0..n
        invariant
            n <= ranked@.len(),
            r@ == ranked@.take(i as int),
    {
        assert(ranked@.take(i + 1) =~= ranked@.take(i as int).push(ranked@[i as int]));
        r.push(ranked[i]);
    }
    r
}

/// What melody selection reads of a channel entry: how many notes it has,
/// its channel, the mean of its keys, and the share of its notes that start
/// before the previous one ends.
#[derive(Clone, Copy, Debug, PartialEq, Eq, Structural)]
pub struct MelodyStats {
    pub notes: usize,
    pub channel: u8,
    pub mean_key: Binary32,
    pub overlap: Binary32,
}

/// An entry that may carry a melody: enough notes, not the drum channel,
/// and, when `key_range` is asked for, a mean key within the range of a
/// voice (a NaN mean is in no range).
pub open spec fn singable(t: MelodyStats, min_notes: usize, key_range: bool) -> bool {
    &&& t.notes >= min_notes
    &&& t.channel != DRUM_CHANNEL
    &&& key_range ==> (ge_bits(t.mean_key.bits, LOWEST_MEAN_KEY_BITS) && le_bits(
        t.mean_key.bits,
        HIGHEST_MEAN_KEY_BITS,
    ))
}

/// `i` is the first singable entry with the least overlap in the total
/// order of binary32 values.
pub open spec fn is_melody_pick(ts: Seq<MelodyStats>, min_notes: usize, key_range: bool, i: int) -> bool {
    &&& 0 <= i < ts.len()
    &&& singable(ts[i], min_notes, key_range)
    &&& forall|j: int|
        0 <= j < ts.len() && singable(#[trigger] ts[j], min_notes, key_range) ==> total_key(
            ts[i].overlap.bits,
        ) <= total_key(ts[j].overlap.bits)
    &&& forall|j: int|
        0 <= j < i && singable(#[trigger] ts[j], min_notes, key_range) ==> total_key(
            ts[i].overlap.bits,
        ) < total_key(ts[j].overlap.bits)
}

/// The entry most likely to carry a singable melody: among the singable
/// ones, the first with the least overlap. `None` when none is singable.
pub fn pick_melody_track(tracks: &[MelodyStats], min_notes: usize, key_range: bool) -> (r: Option<usize>)
    ensures
        match r {
            None => forall|j: int| 0 <= j < tracks@.len() ==> !singable(#[trigger] tracks@[j], min_notes, key_range),
            Some(i) => is_melody_pick(tracks@, min_notes, key_range, i as int),
        },
        r is None <==> forall|j: int| 0 <= j < tracks@.len() ==> !singable(#[trigger] tracks@[j], min_notes, key_range),
        r matches Some(i) ==> {
            &&& i < tracks@.len()
            &&& singable(tracks@[i as int], min_notes, key_range)
            &&& forall|j: int|
                0 <= j < tracks@.len() && singable(#[trigger] tracks@[j], min_notes, key_range) ==> !(total_key(
                    tracks@[j].overlap.bits,
                ) < total_key(tracks@[i as int].overlap.bits))
            &&& forall|j: int|
                0 <= j < i && singable(#[trigger] tracks@[j], min_notes, key_range) ==> total_key(
                    tracks@[i as int].overlap.bits,
                ) < total_key(tracks@[j].overlap.bits)
        },
{
    let lowest = Binary32 { bits: LOWEST_MEAN_KEY_BITS };
    let highest = Binary32 { bits: HIGHEST_MEAN_KEY_BITS };
    let mut best: Option<usize> = None;
    for i in 0..tracks.len()
        invariant
            lowest.bits == LOWEST_MEAN_KEY_BITS,
            highest.bits == HIGHEST_MEAN_KEY_BITS,
            match best {
                None => forall|j: int| 0 <= j < i ==> !singable(#[trigger] tracks@[j], min_notes, key_range),
                Some(b) => b < i && is_melody_pick(tracks@.subrange(0, i as int), min_notes, key_range, b as int),
            },
    {
        let t = tracks[i];
        let ok = t.notes >= min_notes && t.channel != DRUM_CHANNEL && (!key_range || (t.mean_key.ge(lowest)
            && t.mean_key.le(highest)));
        let ghost pre = tracks@.subrange(0, i as int);
        let ghost post = tracks@.subrange(0, i + 1);
        assert forall|j: int| 0 <= j < i implies #[trigger] post[j] == pre[j] by {}
        assert(post[i as int] == t);
        if ok {
            match best {
                None => {
                    best = Some(i);
                },
                Some(b) => {
                    if t.overlap.total_key() < tracks[b].overlap.total_key() {
                        best = Some(i);
                    }
                },
            }
        }
        proof {
            match best {
                None => {},
                Some(b) => {
                    assert forall|j: int|
                        0 <= j < post.len() && singable(#[trigger] post[j], min_notes, key_range) implies total_key(
                        post[b as int].overlap.bits,
                    ) <= total_key(post[j].overlap.bits) by {
                        if j < i {
                            assert(post[j] == pre[j]);
                        }
                    }
                    assert forall|j: int|
                        0 <= j < b && singable(#[trigger] post[j], min_notes, key_range) implies total_key(
                        post[b as int].overlap.bits,
                    ) < total_key(post[j].overlap.bits) by {
                        assert(post[j] == pre[j]);
                    }
                },
            }
        }
    }
    assert(tracks@.subrange(0, tracks@.len() as int) =~= tracks@);
    best
}

/// The melody pick depends on note counts only through the threshold:
/// changing how many notes the entries have, while keeping which of them
/// are singable and keeping every channel, mean key and overlap, leaves the
/// pick where it was. A longer, busier accompaniment never wins over a
/// singable line with less overlap.
pub proof fn lemma_melody_pick_ignores_note_counts(
    ts: Seq<MelodyStats>,
    us: Seq<MelodyStats>,
    min_notes: usize,
    key_range: bool,
    i: int,
)
    requires
        ts.len() == us.len(),
        forall|j: int|
            0 <= j < ts.len() ==> {
                &&& #[trigger] us[j].channel == ts[j].channel
                &&& us[j].mean_key == ts[j].mean_key
                &&& us[j].overlap == ts[j].overlap
                &&& singable(us[j], min_notes, key_range) == singable(ts[j], min_notes, key_range)
            },
        is_melody_pick(ts, min_notes, key_range, i),
    ensures
        is_melody_pick(us, min_notes, key_range, i),
{
    assert(us[i].channel == ts[i].channel);
    assert forall|j: int|
        0 <= j < us.len() && singable(#[trigger] us[j], min_notes, key_range) implies total_key(us[i].overlap.bits)
        <= total_key(us[j].overlap.bits) by {
        assert(us[j].channel == ts[j].channel);
        assert(singable(ts[j], min_notes, key_range));
    }
    assert forall|j: int| 0 <= j < i && singable(#[trigger] us[j], min_notes, key_range) implies total_key(
        us[i].overlap.bits,
    ) < total_key(us[j].overlap.bits) by {
        assert(us[j].channel == ts[j].channel);
        assert(singable(ts[j], min_notes, key_range));
    }
}

/// The most overlap an entry may have to be matched against: 0.35, that is
/// under 35% of its notes start before the previous one ends.
pub const MAX_OVERLAP_BITS: u32 = 0x3eb3_3333;

/// An entry that a query is matched against: not the drum channel, a mean
/// key within the range of a voice, and an overlap below 0.35 (a NaN mean or
/// overlap never qualifies).
pub open spec fn melody_plausible(t: MelodyStats) -> bool {
    singable(t, 0, true) && lt_bits(t.overlap.bits, MAX_OVERLAP_BITS)
}

/// The positions below `k` whose entry is melody-plausible and whose
/// reference shape is at least `needed` moves long, in order.
pub open spec fn matchable(tracks: Seq<MelodyStats>, lens: Seq<usize>, needed: usize, k: int) -> Seq<usize>
    decreases k,
{
    if k <= 0 {
        Seq::empty()
    } else {
        let prev = matchable(tracks, lens, needed, k - 1);
        if lens[k - 1] >= needed && melody_plausible(tracks[k - 1]) {
            prev.push((k - 1) as usize)
        } else {
            prev
        }
    }
}

/// The entries a query of `needed` moves is matched against: those that
/// are melody-plausible and whose reference shapes (of lengths `lens`) can
/// hold the query, in order.
pub fn match_candidates(tracks: &[MelodyStats], lens: &[usize], needed: usize) -> (r: Vec<usize>)
    requires
        tracks@.len() == lens@.len(),
    ensures
        r@ == matchable(tracks@, lens@, needed, lens@.len() as int),
{
    let lowest = Binary32 { bits: LOWEST_MEAN_KEY_BITS };
    let highest = Binary32 { bits: HIGHEST_MEAN_KEY_BITS };
    let max_overlap = Binary32 { bits: MAX_OVERLAP_BITS };
    let mut r: Vec<usize> = Vec::new();
    for i in 0..lens.len()
        invariant
            tracks@.len() == lens@.len(),
            lowest.bits == LOWEST_MEAN_KEY_BITS,
            highest.bits == HIGHEST_MEAN_KEY_BITS,
            max_overlap.bits == MAX_OVERLAP_BITS,
            r@ == matchable(tracks@, lens@, needed, i as int),
    {
        let t = tracks[i];
        if lens[i] >= needed && t.channel != DRUM_CHANNEL && t.mean_key.ge(lowest) && t.mean_key.le(highest)
            && t.overlap.lt(max_overlap) {
            r.push(i);
        }
    }
    r
}

} // verus!
