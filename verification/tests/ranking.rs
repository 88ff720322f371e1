use earworm::binary32::Binary32;
use earworm::selection::{
    best_scored, match_candidates, pick_melody_track, top_ranked, MelodyStats, MAX_RESULTS,
    MIN_MELODY_NOTES, MIN_PROBE_NOTES,
};
use earworm::sorting::{rank_by_cost, sort_total};

fn b(x: f32) -> Binary32 {
    Binary32 { bits: x.to_bits() }
}

#[test]
fn sort_total_matches_total_cmp() {
    let xs = [3.0f32, -1.0, 0.0, -0.0, f32::INFINITY, 2.5, -7.25, 2.5];
    let v: Vec<Binary32> = xs.iter().map(|&x| b(x)).collect();
    let sorted = sort_total(&v);
    let mut expect = xs.to_vec();
    expect.sort_by(f32::total_cmp);
    let got: Vec<u32> = sorted.iter().map(|x| x.bits).collect();
    let want: Vec<u32> = expect.iter().map(|x| x.to_bits()).collect();
    assert_eq!(got, want);
}

#[test]
fn rank_by_cost_is_a_stable_sort() {
    let costs = vec![b(0.5), b(0.25), b(0.5), b(0.125), b(0.25)];
    assert_eq!(rank_by_cost(&costs), vec![3, 1, 4, 0, 2]);
    assert_eq!(rank_by_cost(&[]), Vec::<usize>::new());
}

#[test]
fn rank_by_cost_puts_nan_last() {
    let costs = vec![b(f32::NAN), b(1.0), b(f32::INFINITY)];
    assert_eq!(rank_by_cost(&costs), vec![1, 2, 0]);
}

#[test]
fn top_ranked_keeps_the_first_ten() {
    let costs: Vec<Binary32> = (0..14).map(|i| b((14 - i) as f32)).collect();
    let top = top_ranked(&costs, MAX_RESULTS);
    assert_eq!(top, vec![13, 12, 11, 10, 9, 8, 7, 6, 5, 4]);
    assert_eq!(top_ranked(&costs[..3], MAX_RESULTS), vec![2, 1, 0]);
    assert_eq!(top_ranked(&costs, 0), Vec::<usize>::new());
}

#[test]
fn best_scored_keeps_the_first_lowest() {
    assert_eq!(best_scored(&[]), None);
    assert_eq!(best_scored(&[b(0.4), b(0.2), b(0.3), b(0.2)]), Some(1));
    assert_eq!(best_scored(&[b(0.0), b(-0.0)]), Some(0));
    assert_eq!(best_scored(&[b(f32::INFINITY), b(5.0)]), Some(1));
}

#[test]
fn best_scored_is_stuck_on_a_leading_nan() {
    assert_eq!(best_scored(&[b(f32::NAN), b(0.1)]), Some(0));
    assert_eq!(best_scored(&[b(0.3), b(f32::NAN), b(0.1)]), Some(2));
}

fn stats(notes: usize, channel: u8, mean_key: f32, overlap: f32) -> MelodyStats {
    MelodyStats { notes, channel, mean_key: b(mean_key), overlap: b(overlap) }
}

#[test]
fn pick_melody_track_skips_drums_bass_and_short_tracks() {
    let tracks = vec![
        stats(200, 9, 60.0, 0.0),
        stats(100, 1, 40.0, 0.0),
        stats(5, 2, 60.0, 0.0),
        stats(80, 3, 66.0, 0.4),
        stats(90, 4, 70.0, 0.1),
        stats(90, 5, 72.0, 0.1),
    ];
    assert_eq!(pick_melody_track(&tracks, MIN_MELODY_NOTES, true), Some(4));
    assert_eq!(pick_melody_track(&tracks, MIN_PROBE_NOTES, false), Some(1));
    assert_eq!(pick_melody_track(&tracks[..3], MIN_MELODY_NOTES, true), None);
}

#[test]
fn pick_melody_track_edges_of_the_key_range() {
    let tracks = vec![stats(10, 0, 45.0, 0.5), stats(10, 1, 84.0, 0.25), stats(10, 2, 84.5, 0.0)];
    assert_eq!(pick_melody_track(&tracks, MIN_MELODY_NOTES, true), Some(1));
    let nan_mean = vec![stats(10, 0, f32::NAN, 0.0)];
    assert_eq!(pick_melody_track(&nan_mean, MIN_MELODY_NOTES, true), None);
    assert_eq!(pick_melody_track(&nan_mean, MIN_MELODY_NOTES, false), Some(0));
}

#[test]
fn match_candidates_keep_plausible_melodies_long_enough() {
    let tracks = vec![
        stats(50, 0, 64.0, 0.1),
        stats(50, 9, 64.0, 0.0),
        stats(50, 1, 64.0, 0.35),
        stats(50, 2, 30.0, 0.0),
        stats(50, 3, 70.0, 0.34),
        stats(50, 4, 70.0, 0.0),
        stats(50, 5, f32::NAN, 0.0),
        stats(50, 6, 60.0, f32::NAN),
    ];
    let lens = vec![12, 20, 20, 20, 12, 3, 20, 20];
    assert_eq!(match_candidates(&tracks, &lens, 12), vec![0, 4]);
    assert_eq!(match_candidates(&tracks, &lens, 13), Vec::<usize>::new());
    assert_eq!(match_candidates(&tracks, &lens, 0), vec![0, 4, 5]);
    assert_eq!(match_candidates(&[], &[], 0), Vec::<usize>::new());
}
