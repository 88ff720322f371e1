use earworm::midi::{
    channel_programs, melody_line, midi_tracks, overlap_count, read_midi, scan_track,
    sort_by_start, track_infos, ChannelNote, EventKind, MidiError, MidiEvent, MidiNote,
};
use earworm::chunks::header_timing_overflows;
use earworm::naming::instrument_label;

fn smf(track: &[u8]) -> Vec<u8> {
    let mut out = Vec::new();
    out.extend_from_slice(b"MThd");
    out.extend_from_slice(&[0, 0, 0, 6, 0, 0, 0, 1, 0, 96]);
    out.extend_from_slice(b"MTrk");
    out.extend_from_slice(&(track.len() as u32).to_be_bytes());
    out.extend_from_slice(track);
    out
}

fn note(key: u8, start: u32, end: u32) -> MidiNote {
    MidiNote { key, start, end }
}

fn ev(delta: u32, kind: EventKind) -> MidiEvent {
    MidiEvent { delta, kind }
}

const SIMPLE: [u8; 32] = [
    0x00, 0xFF, 0x03, 0x05, b'M', b'e', b'l', b'o', b'd', //
    0x00, 0xC0, 0x00, //
    0x00, 0x90, 0x3C, 0x40, //
    0x60, 0x80, 0x3C, 0x40, //
    0x00, 0x90, 0x3E, 0x40, //
    0x60, 0x90, 0x3E, 0x00, //
    0x00, 0xFF, 0x2F, 0x00,
];

const TWO_CHANNELS: [u8; 31] = [
    0x00, 0x90, 0x40, 0x50, //
    0x30, 0x90, 0x43, 0x50, //
    0x30, 0x80, 0x40, 0x00, //
    0x30, 0x80, 0x43, 0x00, //
    0x00, 0x91, 0x30, 0x50, //
    0x60, 0x81, 0x30, 0x00, //
    0x00, 0xC1, 0x21, //
    0x00, 0xFF, 0x2F, 0x00,
];

#[test]
fn midi_tracks_reads_a_simple_file() {
    let infos = midi_tracks(&smf(&SIMPLE)).unwrap();
    assert_eq!(infos.len(), 1);
    let t = &infos[0];
    assert_eq!(t.index, 0);
    assert_eq!(t.name, b"Melod".to_vec());
    assert_eq!(t.channel, 0);
    assert_eq!(t.notes, vec![note(60, 0, 96), note(62, 96, 192)]);
    assert_eq!(t.overlaps, 0);
}

#[test]
fn midi_tracks_splits_channels_and_counts_overlaps() {
    let infos = midi_tracks(&smf(&TWO_CHANNELS)).unwrap();
    assert_eq!(infos.len(), 2);
    assert_eq!(infos[0].index, 0);
    assert_eq!(infos[0].channel, 0);
    assert!(infos[0].name.is_empty());
    assert_eq!(infos[0].notes, vec![note(64, 0, 96), note(67, 48, 144)]);
    assert_eq!(infos[0].overlaps, 1);
    assert_eq!(infos[1].index, 1);
    assert_eq!(infos[1].channel, 1);
    assert_eq!(infos[1].notes, vec![note(48, 144, 240)]);
    assert_eq!(infos[1].overlaps, 0);
    assert_eq!(melody_line(&infos[0].notes), vec![67]);
}

#[test]
fn read_midi_keeps_the_events() {
    let tracks = read_midi(&smf(&SIMPLE)).unwrap();
    assert_eq!(tracks.len(), 1);
    assert_eq!(tracks[0].len(), 7);
    assert_eq!(tracks[0][0], ev(0, EventKind::TrackName(b"Melod".to_vec())));
    assert_eq!(tracks[0][1], ev(0, EventKind::ProgramChange(0, 0)));
    assert_eq!(tracks[0][2], ev(0, EventKind::NoteOn(0, 60, 64)));
    assert_eq!(tracks[0][3], ev(96, EventKind::NoteOff(0, 60)));
    assert_eq!(tracks[0][5], ev(96, EventKind::NoteOn(0, 62, 0)));
    assert_eq!(tracks[0][6], ev(0, EventKind::Other));
}

#[test]
fn read_midi_rejects_other_bytes() {
    assert_eq!(read_midi(b"not a midi file").err(), Some(MidiError::Parse));
    assert_eq!(midi_tracks(&[]).err(), Some(MidiError::Parse));
}

#[test]
fn channel_programs_of_a_file() {
    let tracks = read_midi(&smf(&TWO_CHANNELS)).unwrap();
    let programs = channel_programs(&tracks);
    assert_eq!(programs.len(), 256);
    assert_eq!(programs[1], vec![33]);
    assert!(programs[0].is_empty());
    assert_eq!(instrument_label(&programs[1]), "Bass(33)");
}

#[test]
fn channel_programs_keep_first_appearance_once() {
    let tracks = vec![
        vec![ev(0, EventKind::ProgramChange(2, 40)), ev(0, EventKind::ProgramChange(2, 0))],
        vec![ev(0, EventKind::ProgramChange(2, 40)), ev(0, EventKind::ProgramChange(3, 5))],
    ];
    let programs = channel_programs(&tracks);
    assert_eq!(programs[2], vec![40, 0]);
    assert_eq!(programs[3], vec![5]);
}

#[test]
fn scan_track_pairs_repeated_keys_first_in_first_out() {
    let events = vec![
        ev(0, EventKind::NoteOn(0, 60, 100)),
        ev(10, EventKind::NoteOn(0, 60, 100)),
        ev(10, EventKind::NoteOff(0, 60)),
        ev(10, EventKind::NoteOn(0, 60, 0)),
        ev(5, EventKind::NoteOff(0, 61)),
        ev(5, EventKind::TrackName(b"x".to_vec())),
        ev(5, EventKind::TrackName(b"Lead".to_vec())),
    ];
    let (name, closed) = scan_track(&events).unwrap();
    assert_eq!(name, b"Lead".to_vec());
    assert_eq!(
        closed,
        vec![
            ChannelNote { channel: 0, note: note(60, 0, 20) },
            ChannelNote { channel: 0, note: note(60, 10, 30) },
        ]
    );
}

#[test]
fn track_infos_reports_tick_overflow() {
    let tracks = vec![vec![ev(u32::MAX, EventKind::Other), ev(1, EventKind::Other)]];
    assert_eq!(track_infos(&tracks).err(), Some(MidiError::TickOverflow));
    assert_eq!(scan_track(&tracks[0]), None);
    let fits = vec![vec![ev(u32::MAX, EventKind::Other), ev(0, EventKind::Other)]];
    assert_eq!(track_infos(&fits).unwrap().len(), 0);
}

#[test]
fn sort_by_start_is_stable() {
    let ns = vec![note(70, 10, 20), note(60, 0, 5), note(65, 10, 12), note(62, 0, 3)];
    assert_eq!(
        sort_by_start(&ns),
        vec![note(60, 0, 5), note(62, 0, 3), note(70, 10, 20), note(65, 10, 12)]
    );
}

#[test]
fn overlap_count_counts_starts_before_previous_end() {
    assert_eq!(overlap_count(&vec![note(60, 0, 10), note(62, 5, 15), note(64, 15, 20)]), 1);
    assert_eq!(overlap_count(&vec![note(60, 0, 10)]), 0);
    assert_eq!(overlap_count(&vec![]), 0);
}

#[test]
fn melody_line_keeps_the_top_voice() {
    let ns = vec![
        note(60, 0, 10),
        note(64, 0, 10),
        note(55, 5, 10),
        note(67, 10, 20),
        note(72, 20, 30),
    ];
    assert_eq!(melody_line(&ns), vec![64, 67, 72]);
    assert_eq!(melody_line(&[]), Vec::<u8>::new());
}

fn header_with(format: u16, timing: [u8; 2]) -> Vec<u8> {
    let mut out = Vec::new();
    out.extend_from_slice(b"MThd");
    out.extend_from_slice(&[0, 0, 0, 6]);
    out.extend_from_slice(&format.to_be_bytes());
    out.extend_from_slice(&[0, 1]);
    out.extend_from_slice(&timing);
    out
}

fn riff(data: &[u8]) -> Vec<u8> {
    let mut body = Vec::new();
    body.extend_from_slice(b"RMID");
    body.extend_from_slice(b"data");
    body.extend_from_slice(&(data.len() as u32).to_le_bytes());
    body.extend_from_slice(data);
    let mut out = Vec::new();
    out.extend_from_slice(b"RIFF");
    out.extend_from_slice(&(body.len() as u32).to_le_bytes());
    out.extend_from_slice(&body);
    out
}

#[test]
fn timing_of_minus_128_frames_is_refused() {
    let bad = header_with(0, [0x80, 0x00]);
    assert!(header_timing_overflows(&bad));
    assert_eq!(read_midi(&bad).err(), Some(MidiError::Parse));
    assert_eq!(midi_tracks(&bad).err(), Some(MidiError::Parse));
}

#[test]
fn timing_of_minus_128_frames_inside_riff_is_refused() {
    let bad = riff(&header_with(1, [0x80, 0x10]));
    assert!(header_timing_overflows(&bad));
    assert_eq!(read_midi(&bad).err(), Some(MidiError::Parse));
}

#[test]
fn timing_of_minus_128_frames_in_a_later_header_is_refused() {
    let mut bytes = smf(&SIMPLE);
    bytes.extend_from_slice(&header_with(0, [0x80, 0x00]));
    assert!(header_timing_overflows(&bytes));
    assert_eq!(midi_tracks(&bytes).err(), Some(MidiError::Parse));
}

#[test]
fn other_timing_words_are_parsed() {
    assert!(!header_timing_overflows(&smf(&SIMPLE)));
    let timecode = header_with(0, [0xE8, 0x28]);
    assert!(!header_timing_overflows(&timecode));
    assert_eq!(read_midi(&timecode).unwrap().len(), 0);
    let bad_format = header_with(3, [0x80, 0x00]);
    assert!(!header_timing_overflows(&bad_format));
    assert_eq!(read_midi(&bad_format).err(), Some(MidiError::Parse));
    assert!(!header_timing_overflows(b"MTh"));
}

#[test]
fn riff_wrapped_file_is_read() {
    let bytes = riff(&smf(&SIMPLE));
    assert!(!header_timing_overflows(&bytes));
    let infos = midi_tracks(&bytes).unwrap();
    assert_eq!(infos.len(), 1);
    assert_eq!(infos[0].notes, vec![note(60, 0, 96), note(62, 96, 192)]);
}
