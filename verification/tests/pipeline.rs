use earworm::binary32::Binary32;
use earworm::contour::{
    melody_moves, query_strength, QueryStrength, MIN_QUERY_MOVES, MIN_USEFUL_HUM_MOVES,
    MIN_USEFUL_MOVES,
};
use earworm::notes::{push_note, Note, Segmenter, MAX_GAP_FRAMES, MIN_NOTE_FRAMES};
use earworm::pitch::{frame_starts, select_lag, voiced_pitches, HOP_SIZE, WINDOW_SIZE};
use earworm::smoothing::{median, median_filter, voiced_count, MEDIAN_WINDOW};

fn b(x: f32) -> Binary32 {
    Binary32 { bits: x.to_bits() }
}

fn track(xs: &[Option<f32>]) -> Vec<Option<Binary32>> {
    xs.iter().map(|x| x.map(b)).collect()
}

#[test]
fn constants_match_the_design() {
    assert_eq!(WINDOW_SIZE, 4096);
    assert_eq!(HOP_SIZE, 1024);
    assert_eq!(MEDIAN_WINDOW, 5);
    assert_eq!(MIN_NOTE_FRAMES, 5);
    assert_eq!(MAX_GAP_FRAMES, 1);
    assert_eq!(MIN_USEFUL_MOVES, 12);
    assert_eq!(MIN_USEFUL_HUM_MOVES, 5);
    assert_eq!(MIN_QUERY_MOVES, 4);
}

#[test]
fn frame_starts_step_by_hop() {
    assert_eq!(frame_starts(0), Vec::<usize>::new());
    assert_eq!(frame_starts(4095), Vec::<usize>::new());
    assert_eq!(frame_starts(4096), vec![0]);
    assert_eq!(frame_starts(5119), vec![0]);
    assert_eq!(frame_starts(5120), vec![0, 1024]);
    assert_eq!(frame_starts(10000).len(), 6);
    assert_eq!(frame_starts(48000).len(), (48000 - 4096) / 1024 + 1);
}

#[test]
fn select_lag_walks_to_the_valley_floor() {
    let c: Vec<Binary32> = [1.0f32, 0.9, 0.5, 0.2, 0.1, 0.05, 0.3, 0.01, 0.6].iter().map(|&x| b(x)).collect();
    assert_eq!(select_lag(&c, 1, 8), 5);
    assert_eq!(select_lag(&c, 6, 8), 7);
    assert_eq!(select_lag(&c, 1, 4), 4);
}

#[test]
fn select_lag_takes_the_first_least_when_nothing_dips() {
    let c: Vec<Binary32> = [0.9f32, 0.6, 0.4, 0.8, 0.4, 0.7].iter().map(|&x| b(x)).collect();
    assert_eq!(select_lag(&c, 0, 5), 2);
    assert_eq!(select_lag(&c, 3, 5), 4);
    assert_eq!(select_lag(&c, 5, 5), 5);
}

#[test]
fn voiced_pitches_drop_unsure_and_silent_frames() {
    let p = vec![
        (b(220.0), b(0.1)),
        (b(220.0), b(0.3)),
        (b(0.0), b(0.05)),
        (b(330.0), b(0.29)),
        (b(f32::NAN), b(0.1)),
        (b(440.0), b(f32::NAN)),
    ];
    assert_eq!(
        voiced_pitches(&p),
        vec![Some(b(220.0)), None, None, Some(b(330.0)), None, None]
    );
}

#[test]
fn median_is_the_middle_in_total_order() {
    assert_eq!(median(&[b(3.0), b(1.0), b(2.0)]), b(2.0));
    assert_eq!(median(&[b(4.0), b(1.0), b(3.0), b(2.0)]), b(3.0));
    assert_eq!(median(&[b(7.0)]), b(7.0));
}

#[test]
fn median_filter_removes_a_single_octave_slip() {
    let t = track(&[Some(60.0), Some(60.0), Some(72.0), Some(60.0), Some(60.0)]);
    assert_eq!(median_filter(&t), track(&[Some(60.0); 5]));
}

#[test]
fn median_filter_keeps_unvoiced_frames() {
    let t = track(&[None, Some(62.0), None, Some(64.0), Some(60.0), None]);
    let r = median_filter(&t);
    assert_eq!(r, track(&[None, Some(64.0), None, Some(62.0), Some(64.0), None]));
    assert_eq!(median_filter(&[]), Vec::<Option<Binary32>>::new());
}

#[test]
fn voiced_count_counts_some_frames() {
    assert_eq!(voiced_count(&track(&[None, Some(1.0), Some(2.0), None])), 2);
    assert_eq!(voiced_count(&[]), 0);
}

#[test]
fn push_note_keeps_long_notes_only() {
    let mut notes: Vec<Note> = Vec::new();
    let mut current = vec![b(60.0), b(61.0), b(59.0), b(60.5), b(60.2)];
    push_note(&mut notes, &mut current, 3, 7);
    assert!(current.is_empty());
    assert_eq!(notes, vec![Note { semitones: b(60.2), start: 3, end: 7 }]);
    let mut short = vec![b(60.0); 4];
    push_note(&mut notes, &mut short, 8, 11);
    assert!(short.is_empty());
    assert_eq!(notes.len(), 1);
}

#[test]
fn segmenter_splits_on_gap_and_on_leaving() {
    let mut s = Segmenter::new();
    for _ in 0..5 {
        s.voiced(b(60.0), false);
    }
    s.unvoiced();
    s.voiced(b(60.0), false);
    s.unvoiced();
    s.unvoiced();
    for _ in 0..6 {
        s.voiced(b(62.0), false);
    }
    s.voiced(b(65.0), true);
    assert_eq!(s.frame_count(), 16);
    assert_eq!(s.current().len(), 1);
    let notes = s.finish();
    assert_eq!(
        notes,
        vec![
            Note { semitones: b(60.0), start: 0, end: 6 },
            Note { semitones: b(62.0), start: 9, end: 14 },
        ]
    );
}

#[test]
fn segmenter_two_silent_frames_end_a_note() {
    let mut s = Segmenter::new();
    for _ in 0..3 {
        s.voiced(b(60.0), false);
    }
    s.unvoiced();
    s.unvoiced();
    for _ in 0..2 {
        s.voiced(b(60.0), false);
    }
    assert_eq!(s.finish(), Vec::<Note>::new());
}

#[test]
fn segmenter_spans_one_dropped_frame() {
    let mut s = Segmenter::new();
    for _ in 0..3 {
        s.voiced(b(60.0), false);
    }
    s.unvoiced();
    for _ in 0..2 {
        s.voiced(b(60.0), false);
    }
    assert_eq!(s.finish(), vec![Note { semitones: b(60.0), start: 0, end: 5 }]);
}

#[test]
fn segmenter_drops_short_notes() {
    let mut s = Segmenter::new();
    for _ in 0..4 {
        s.voiced(b(70.0), false);
    }
    for _ in 0..2 {
        s.unvoiced();
    }
    assert_eq!(s.finish(), Vec::<Note>::new());
    assert_eq!(Segmenter::new().finish(), Vec::<Note>::new());
}

#[test]
fn melody_moves_drop_repeats() {
    let steps: Vec<Binary32> = [0.0f32, 2.0, -0.5, -0.75, 0.74, f32::NAN, -3.0, 12.0]
        .iter()
        .map(|&x| b(x))
        .collect();
    assert_eq!(melody_moves(&steps), vec![b(2.0), b(-0.75), b(-3.0), b(12.0)]);
    assert_eq!(melody_moves(&[]), Vec::<Binary32>::new());
}

#[test]
fn query_strength_grades_by_length() {
    assert_eq!(query_strength(3, MIN_USEFUL_MOVES), QueryStrength::TooShort);
    assert_eq!(query_strength(4, MIN_USEFUL_MOVES), QueryStrength::Weak);
    assert_eq!(query_strength(11, MIN_USEFUL_MOVES), QueryStrength::Weak);
    assert_eq!(query_strength(12, MIN_USEFUL_MOVES), QueryStrength::Useful);
    assert_eq!(query_strength(5, MIN_USEFUL_HUM_MOVES), QueryStrength::Useful);
}
