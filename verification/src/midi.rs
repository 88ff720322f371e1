//! Reference melodies from Standard MIDI Files: pairing note-on and
//! note-off events into notes, splitting each track by channel, and taking
//! the top line of a channel's notes.

use vstd::prelude::*;
use crate::sorting::{order_of, sort_total, Keyed, TotalOrder};
use crate::chunks::{header_timing_overflows, timing_overflows};
use midly::Smf;
use midly::MetaMessage::TrackName;
use midly::MidiMessage::{NoteOff, NoteOn, ProgramChange};
use midly::TrackEventKind::{Meta, Midi};

verus! {

/// What the library reads of one MIDI event.
#[derive(Clone, Debug, PartialEq, Eq)]
pub enum EventKind {
    /// A track-name meta event and its raw bytes.
    TrackName(Vec<u8>),
    /// Note on: channel, key, velocity.
    NoteOn(u8, u8, u8),
    /// Note off: channel, key.
    NoteOff(u8, u8),
    /// Program change: channel, program.
    ProgramChange(u8, u8),
    /// Anything else.
    Other,
}

/// One event of a track: the ticks since the previous event, and its kind.
#[derive(Clone, Debug, PartialEq, Eq)]
pub struct MidiEvent {
    pub delta: u32,
    pub kind: EventKind,
}

/// Why a file gave no tracks.
#[derive(Clone, Copy, Debug, PartialEq, Eq, Structural)]
pub enum MidiError {
    /// The bytes are not a Standard MIDI File.
    Parse,
    /// A track's ticks run past the range of a `u32`.
    TickOverflow,
}

/// The events of each track of the Standard MIDI File `bytes`, as `midly`
/// reads them, or `None` where it rejects the bytes.
pub uninterp spec fn midi_file_events(bytes: Seq<u8>) -> Option<Seq<Seq<MidiEvent>>>;

/// The tracks as sequences of events.
pub open spec fn tracks_view(tracks: Seq<Vec<MidiEvent>>) -> Seq<Seq<MidiEvent>> {
    tracks.map_values(|t: Vec<MidiEvent>| t@)
}

/// Channels are four-bit, keys, velocities and programs seven-bit.
pub open spec fn event_in_range(e: MidiEvent) -> bool {
    match e.kind {
        EventKind::NoteOn(c, k, v) => c < 16 && k < 128 && v < 128,
        EventKind::NoteOff(c, k) => c < 16 && k < 128,
        EventKind::ProgramChange(c, p) => c < 16 && p < 128,
        _ => true,
    }
}

/// Every event of every track is in range.
pub open spec fn tracks_in_range(tracks: Seq<Seq<MidiEvent>>) -> bool {
    forall|t: int, i: int|
        0 <= t < tracks.len() && 0 <= i < tracks[t].len() ==> event_in_range(#[trigger] tracks[t][i])
}

/// Parses `bytes` with `midly::Smf::parse` and keeps, of each event, its
/// delta time and the fields the library reads. The contract claims that the
/// result is a function of the bytes alone (named `midi_file_events`), and
/// that channels, keys, velocities and programs are within the ranges of the
/// `u4` and `u7` types that carry them. Bytes whose parse reaches a header
/// with a timing word of high byte `0x80` are left out: there the parser
/// negates `-128` as an `i8`, which overflows.
#[verifier::external_body]
fn parse_midi_events(bytes: &[u8]) -> (r: Option<Vec<Vec<MidiEvent>>>)
    requires
        !timing_overflows(bytes@),
    ensures
        match r {
            Some(t) => midi_file_events(bytes@) == Some(tracks_view(t@)) && tracks_in_range(
                tracks_view(t@),
            ),
            None => midi_file_events(bytes@) is None,
        },
{
    Smf::parse(bytes).ok().map(|s| s.tracks.iter().map(|t| t.iter().map(|e| MidiEvent { delta: e.delta.as_int(), kind: match e.kind {
        Meta(TrackName(n)) => EventKind::TrackName(n.to_vec()),
        Midi { channel, message: NoteOn { key, vel } } => EventKind::NoteOn(channel.as_int(), key.as_int(), vel.as_int()),
        Midi { channel, message: NoteOff { key, .. } } => EventKind::NoteOff(channel.as_int(), key.as_int()),
        Midi { channel, message: ProgramChange { program } } => EventKind::ProgramChange(channel.as_int(), program.as_int()),
        _ => EventKind::Other,
    } }).collect()).collect())
}

/// The events of each track of a Standard MIDI File. A file with a header
/// whose timing word asks for -128 frames per second is refused as
/// unparsable.
pub fn read_midi(bytes: &[u8]) -> (r: Result<Vec<Vec<MidiEvent>>, MidiError>)
    ensures
        timing_overflows(bytes@) ==> r == Err::<Vec<Vec<MidiEvent>>, MidiError>(MidiError::Parse),
        !timing_overflows(bytes@) ==> match r {
            Ok(t) => midi_file_events(bytes@) == Some(tracks_view(t@)) && tracks_in_range(
                tracks_view(t@),
            ),
            Err(e) => e == MidiError::Parse && midi_file_events(bytes@) is None,
        },
{
    if header_timing_overflows(bytes) {
        return Err(MidiError::Parse);
    }
    match parse_midi_events(bytes) {
        Some(t) => Ok(t),
        None => Err(MidiError::Parse),
    }
}

/// A finished note: its key and the ticks at which it starts and ends.
#[derive(Clone, Copy, Debug, PartialEq, Eq, Structural)]
pub struct MidiNote {
    pub key: u8,
    pub start: u32,
    pub end: u32,
}

/// A note still sounding: its channel, key and start tick.
#[derive(Clone, Copy, Debug, PartialEq, Eq, Structural)]
pub struct OpenNote {
    pub channel: u8,
    pub key: u8,
    pub start: u32,
}

/// A finished note and the channel it was played on.
#[derive(Clone, Copy, Debug, PartialEq, Eq, Structural)]
pub struct ChannelNote {
    pub channel: u8,
    pub note: MidiNote,
}

/// Ticks from the start of the track to the `k`-th event.
pub open spec fn tick_at(events: Seq<MidiEvent>, k: int) -> int
    decreases k,
{
    if k <= 0 {
        0
    } else {
        tick_at(events, k - 1) + events[k - 1].delta
    }
}

/// The track's last tick fits in a `u32`.
pub open spec fn ticks_fit(events: Seq<MidiEvent>) -> bool {
    tick_at(events, events.len() as int) <= u32::MAX
}

/// Index of the first still-sounding note at or after `i` with this channel
/// and key.
pub open spec fn first_open_from(open: Seq<OpenNote>, channel: u8, key: u8, i: int) -> Option<int>
    decreases open.len() - i,
{
    if i < 0 || i >= open.len() {
        None
    } else if open[i].channel == channel && open[i].key == key {
        Some(i)
    } else {
        first_open_from(open, channel, key, i + 1)
    }
}

/// A note-off (or note-on with velocity 0) at `tick`: the first sounding
/// note with this channel and key ends, if there is one.
pub open spec fn close_note(
    open: Seq<OpenNote>,
    closed: Seq<ChannelNote>,
    channel: u8,
    key: u8,
    tick: u32,
) -> (Seq<OpenNote>, Seq<ChannelNote>) {
    match first_open_from(open, channel, key, 0) {
        Some(p) => (
            open.remove(p),
            closed.push(ChannelNote { channel, note: MidiNote { key, start: open[p].start, end: tick } }),
        ),
        None => (open, closed),
    }
}

/// The sounding and the finished notes after the first `k` events.
pub open spec fn pairing(events: Seq<MidiEvent>, k: int) -> (Seq<OpenNote>, Seq<ChannelNote>)
    decreases k,
{
    if k <= 0 {
        (Seq::empty(), Seq::empty())
    } else {
        let (open, closed) = pairing(events, k - 1);
        let tick = tick_at(events, k) as u32;
        match events[k - 1].kind {
            EventKind::NoteOn(c, key, vel) => if vel > 0 {
                (open.push(OpenNote { channel: c, key, start: tick }), closed)
            } else {
                close_note(open, closed, c, key, tick)
            },
            EventKind::NoteOff(c, key) => close_note(open, closed, c, key, tick),
            _ => (open, closed),
        }
    }
}

/// The bytes of the last track name among the first `k` events (empty when
/// there is none).
pub open spec fn last_name(events: Seq<MidiEvent>, k: int) -> Seq<u8>
    decreases k,
{
    if k <= 0 {
        Seq::empty()
    } else {
        match events[k - 1].kind {
            EventKind::TrackName(n) => n@,
            _ => last_name(events, k - 1),
        }
    }
}

proof fn lemma_tick_monotone(events: Seq<MidiEvent>, j: int, k: int)
    requires
        0 <= j <= k <= events.len(),
    ensures
        tick_at(events, j) <= tick_at(events, k),
    decreases k - j,
{
    if j < k {
        lemma_tick_monotone(events, j, k - 1);
    }
}

/// Pairs the note events of one track. `None` when its ticks overflow a
/// `u32`; otherwise the track's name bytes and its finished notes in the
/// order they ended.
pub fn scan_track(events: &Vec<MidiEvent>) -> (r: Option<(Vec<u8>, Vec<ChannelNote>)>)
    ensures
        match r {
            None => !ticks_fit(events@),
            Some((name, closed)) => {
                &&& ticks_fit(events@)
                &&& name@ == last_name(events@, events@.len() as int)
                &&& closed@ == pairing(events@, events@.len() as int).1
                &&& closed_sourced(events@, closed@, events@.len() as int)
            },
        },
{
    let n = events.len();
    let mut tick: u32 = 0;
    let mut name: Vec<u8> = Vec::new();
    let mut open: Vec<OpenNote> = Vec::new();
    let mut closed: Vec<ChannelNote> = Vec::new();
    for i in 0..n
        invariant
            n == events@.len(),
            tick == tick_at(events@, i as int),
            name@ == last_name(events@, i as int),
            open@ == pairing(events@, i as int).0,
            closed@ == pairing(events@, i as int).1,
    {
        let e = &events[i];
        match tick.checked_add(e.delta) {
            None => {
                proof {
                    lemma_tick_monotone(events@, i + 1, n as int);
                }
                return None;
            },
            Some(t) => {
                tick = t;
            },
        }
        match &e.kind {
            EventKind::TrackName(bytes) => {
                let mut copy: Vec<u8> = Vec::new();
                for j in 0..bytes.len()
                    invariant
                        copy@ == bytes@.subrange(0, j as int),
                {
                    copy.push(bytes[j]);
                }
                assert(copy@ =~= bytes@);
                name = copy;
            },
            EventKind::NoteOn(c, key, vel) => {
                if *vel > 0 {
                    open.push(OpenNote { channel: *c, key: *key, start: tick });
                } else {
                    close_open_note(&mut open, &mut closed, *c, *key, tick);
                }
            },
            EventKind::NoteOff(c, key) => {
                close_open_note(&mut open, &mut closed, *c, *key, tick);
            },
            _ => {},
        }
    }
    proof {
        lemma_pairing_sources(events@, n as int);
    }
    Some((name, closed))
}

fn close_open_note(open: &mut Vec<OpenNote>, closed: &mut Vec<ChannelNote>, channel: u8, key: u8, tick: u32)
    ensures
        (final(open)@, final(closed)@) == close_note(old(open)@, old(closed)@, channel, key, tick),
{
    let mut p: usize = 0;
    while p < open.len()
        invariant
            p <= open@.len(),
            open@ == old(open)@,
            closed@ == old(closed)@,
            first_open_from(open@, channel, key, 0) == first_open_from(open@, channel, key, p as int),
        decreases open@.len() - p,
    {
        if open[p].channel == channel && open[p].key == key {
            assert(first_open_from(open@, channel, key, p as int) == Some(p as int));
            let o = open.remove(p);
            closed.push(ChannelNote { channel, note: MidiNote { key, start: o.start, end: tick } });
            return;
        }
        p = p + 1;
    }
    assert(first_open_from(open@, channel, key, p as int) is None);
}

/// The notes of channel `c`, in the order they ended.
pub open spec fn channel_notes(closed: Seq<ChannelNote>, c: u8) -> Seq<MidiNote>
    decreases closed.len(),
{
    if closed.len() == 0 {
        Seq::empty()
    } else {
        let prev = channel_notes(closed.drop_last(), c);
        if closed.last().channel == c {
            prev.push(closed.last().note)
        } else {
            prev
        }
    }
}

/// Each note's start tick paired with its position.
pub open spec fn keyed_starts(ns: Seq<MidiNote>) -> Seq<Keyed> {
    Seq::new(ns.len(), |i: int| Keyed { key: ns[i].start as i64, pos: i as usize })
}

/// The notes in order of start tick; notes with the same start keep their
/// order (a stable sort by start).
pub open spec fn by_start(ns: Seq<MidiNote>) -> Seq<MidiNote> {
    keyed_starts(ns).sort_by(order_of::<Keyed>()).map_values(|k: Keyed| ns[k.pos as int])
}

/// How many notes start before the previous note has ended.
pub open spec fn count_overlaps(ns: Seq<MidiNote>) -> int
    decreases ns.len(),
{
    if ns.len() < 2 {
        0
    } else {
        count_overlaps(ns.drop_last()) + if ns.last().start < ns[ns.len() - 2].end {
            1int
        } else {
            0int
        }
    }
}

/// One channel of one track: its position in the list, the track's name
/// bytes, the channel, its notes by start tick, and how many of them
/// overlap the note before.
pub struct TrackInfo {
    pub index: usize,
    pub name: Vec<u8>,
    pub channel: u8,
    pub notes: Vec<MidiNote>,
    pub overlaps: usize,
}

impl View for TrackInfo {
    type V = (int, Seq<u8>, u8, Seq<MidiNote>, int);

    open spec fn view(&self) -> Self::V {
        (self.index as int, self.name@, self.channel, self.notes@, self.overlaps as int)
    }
}

/// The channel entries of a track, for channels below `c`, numbered from
/// `base`: one for each channel with at least one finished note, in channel
/// order.
pub open spec fn channel_infos(name: Seq<u8>, closed: Seq<ChannelNote>, base: int, c: int) -> Seq<
    (int, Seq<u8>, u8, Seq<MidiNote>, int),
>
    decreases c,
{
    if c <= 0 {
        Seq::empty()
    } else {
        let prev = channel_infos(name, closed, base, c - 1);
        let ns = channel_notes(closed, (c - 1) as u8);
        if ns.len() > 0 {
            let sorted = by_start(ns);
            prev.push((base + prev.len(), name, (c - 1) as u8, sorted, count_overlaps(sorted)))
        } else {
            prev
        }
    }
}

/// The channel entries of all tracks, tracks in file order, each track's
/// channels in increasing order.
pub open spec fn track_infos_spec(tracks: Seq<Seq<MidiEvent>>) -> Seq<(int, Seq<u8>, u8, Seq<MidiNote>, int)>
    decreases tracks.len(),
{
    if tracks.len() == 0 {
        Seq::empty()
    } else {
        let prev = track_infos_spec(tracks.drop_last());
        let ev = tracks.last();
        prev + channel_infos(
            last_name(ev, ev.len() as int),
            pairing(ev, ev.len() as int).1,
            prev.len() as int,
            256,
        )
    }
}

/// Every track's ticks fit in a `u32`.
pub open spec fn all_ticks_fit(tracks: Seq<Seq<MidiEvent>>) -> bool {
    forall|t: int| 0 <= t < tracks.len() ==> ticks_fit(#[trigger] tracks[t])
}

fn copy_bytes(v: &Vec<u8>) -> (r: Vec<u8>)
    ensures
        r@ == v@,
{
    let mut r: Vec<u8> = Vec::new();
    for j in 0..v.len()
        invariant
            r@ == v@.subrange(0, j as int),
    {
        r.push(v[j]);
    }
    assert(r@ =~= v@);
    r
}

/// The notes of channel `c`, in the order they ended.
pub fn notes_on_channel(closed: &Vec<ChannelNote>, c: u8) -> (r: Vec<MidiNote>)
    ensures
        r@ == channel_notes(closed@, c),
{
    let mut r: Vec<MidiNote> = Vec::new();
    for i in 0..closed.len()
        invariant
            r@ == channel_notes(closed@.subrange(0, i as int), c),
    {
        proof {
            assert(closed@.subrange(0, i + 1).drop_last() =~= closed@.subrange(0, i as int));
        }
        if closed[i].channel == c {
            r.push(closed[i].note);
        }
    }
    assert(closed@.subrange(0, closed@.len() as int) =~= closed@);
    r
}

/// The notes in order of start tick, keeping the order of notes that start
/// together.
pub fn sort_by_start(ns: &Vec<MidiNote>) -> (r: Vec<MidiNote>)
    ensures
        r@ == by_start(ns@),
{
    let n = ns.len();
    let mut keyed: Vec<Keyed> = Vec::new();
    for i in 0..n
        invariant
            n == ns@.len(),
            keyed@.len() == i,
            forall|k: int| 0 <= k < i ==> #[trigger] keyed@[k] == keyed_starts(ns@)[k],
    {
        keyed.push(Keyed { key: ns[i].start as i64, pos: i });
    }
    assert(keyed@ =~= keyed_starts(ns@));
    let sorted = sort_total(keyed.as_slice());
    proof {
        Keyed::lemma_total();
        keyed@.lemma_sort_by_ensures(order_of::<Keyed>());
        assert forall|j: int| 0 <= j < sorted@.len() implies #[trigger] sorted@[j].pos < n by {
            assert(sorted@.contains(sorted@[j]));
            assert(keyed@.contains(sorted@[j]));
        }
    }
    let mut r: Vec<MidiNote> = Vec::new();
    for j in 0..n
        invariant
            n == ns@.len(),
            sorted@.len() == n,
            forall|k: int| 0 <= k < n ==> #[trigger] sorted@[k].pos < n,
            r@.len() == j,
            forall|k: int| 0 <= k < j ==> #[trigger] r@[k] == ns@[sorted@[k].pos as int],
    {
        r.push(ns[sorted[j].pos]);
    }
    assert(r@ =~= by_start(ns@));
    r
}

/// How many notes start before the previous note has ended.
pub fn overlap_count(ns: &Vec<MidiNote>) -> (r: usize)
    ensures
        r == count_overlaps(ns@),
        r == Seq::new(
            (if ns@.len() > 0 {
                ns@.len() - 1
            } else {
                0
            }) as nat,
            |i: int| i + 1,
        ).filter(|i: int| ns@[i].start < ns@[i - 1].end).len(),
{
    proof {
        lemma_overlaps_are_adjacent(ns@);
    }
    let mut r: usize = 0;
    let n = ns.len();
    if n < 2 {
        return 0;
    }
    let mut i: usize = 1;
    while i < n
        invariant
            n == ns@.len(),
            1 <= i <= n,
            r == count_overlaps(ns@.subrange(0, i as int)),
            r < i,
        decreases n - i,
    {
        proof {
            assert(ns@.subrange(0, i + 1).drop_last() =~= ns@.subrange(0, i as int));
        }
        if ns[i].start < ns[i - 1].end {
            r = r + 1;
        }
        i = i + 1;
    }
    assert(ns@.subrange(0, n as int) =~= ns@);
    r
}

/// The views of a list of channel entries.
pub open spec fn infos_view(infos: Seq<TrackInfo>) -> Seq<(int, Seq<u8>, u8, Seq<MidiNote>, int)> {
    infos.map_values(|i: TrackInfo| i@)
}

/// Splits each track of a parsed file into one entry per channel that has
/// finished notes, each with its notes in order of start tick. Fails, as
/// the tick sum would overflow, when a track's ticks run past a `u32`.
pub fn track_infos(tracks: &Vec<Vec<MidiEvent>>) -> (r: Result<Vec<TrackInfo>, MidiError>)
    ensures
        match r {
            Ok(infos) => all_ticks_fit(tracks_view(tracks@)) && infos_view(infos@)
                == track_infos_spec(tracks_view(tracks@)),
            Err(e) => e == MidiError::TickOverflow && !all_ticks_fit(tracks_view(tracks@)),
        },
{
    let ghost tv = tracks_view(tracks@);
    let mut infos: Vec<TrackInfo> = Vec::new();
    for t in 0..tracks.len()
        invariant
            tv == tracks_view(tracks@),
            infos_view(infos@) == track_infos_spec(tv.subrange(0, t as int)),
            all_ticks_fit(tv.subrange(0, t as int)),
    {
        match scan_track(&tracks[t]) {
            None => {
                assert(tv[t as int] == tracks@[t as int]@);
                return Err(MidiError::TickOverflow);
            },
            Some((name, closed)) => {
                let base = infos.len();
                let ghost prev = infos_view(infos@);
                assert(channel_infos(name@, closed@, base as int, 0) =~= Seq::<
                    (int, Seq<u8>, u8, Seq<MidiNote>, int),
                >::empty());
                assert(infos_view(infos@) =~= prev + channel_infos(name@, closed@, base as int, 0));
                for c in 0..256usize
                    invariant
                        base as int == prev.len(),
                        infos_view(infos@) == prev + channel_infos(name@, closed@, base as int, c as int),
                {
                    let ns = notes_on_channel(&closed, c as u8);
                    if ns.len() > 0 {
                        let sorted = sort_by_start(&ns);
                        let overlaps = overlap_count(&sorted);
                        let ghost before = infos@;
                        let info = TrackInfo {
                            index: infos.len(),
                            name: copy_bytes(&name),
                            channel: c as u8,
                            notes: sorted,
                            overlaps,
                        };
                        infos.push(info);
                        assert(infos_view(infos@) =~= infos_view(before).push(info@));
                    }
                    assert(infos_view(infos@) =~= prev + channel_infos(
                        name@,
                        closed@,
                        base as int,
                        c + 1,
                    ));
                }
                proof {
                    let sub = tv.subrange(0, t + 1);
                    assert(sub.drop_last() =~= tv.subrange(0, t as int));
                    assert(sub.last() == tracks@[t as int]@);
                    assert forall|k: int| 0 <= k < sub.len() implies ticks_fit(#[trigger] sub[k]) by {
                        if k < t {
                            assert(sub[k] == tv.subrange(0, t as int)[k]);
                        }
                    }
                }
            },
        }
    }
    assert(tv.subrange(0, tracks@.len() as int) =~= tv);
    Ok(infos)
}

/// Reads a Standard MIDI File into one entry per channel of each track.
pub fn midi_tracks(bytes: &[u8]) -> (r: Result<Vec<TrackInfo>, MidiError>)
    ensures
        timing_overflows(bytes@) ==> r == Err::<Vec<TrackInfo>, MidiError>(MidiError::Parse),
        !timing_overflows(bytes@) ==> match midi_file_events(bytes@) {
            None => r == Err::<Vec<TrackInfo>, MidiError>(MidiError::Parse),
            Some(tracks) => match r {
                Ok(infos) => all_ticks_fit(tracks) && infos_view(infos@) == track_infos_spec(tracks),
                Err(e) => e == MidiError::TickOverflow && !all_ticks_fit(tracks),
            },
        },
{
    match read_midi(bytes) {
        Ok(tracks) => track_infos(&tracks),
        Err(e) => Err(e),
    }
}

/// The top line of `ns` (notes in order of start): a note that starts
/// before the line's last note has ended replaces that note when it is
/// higher and is dropped otherwise; any other note extends the line.
pub open spec fn melody_notes(ns: Seq<MidiNote>) -> Seq<MidiNote>
    decreases ns.len(),
{
    if ns.len() == 0 {
        Seq::empty()
    } else {
        let line = melody_notes(ns.drop_last());
        let n = ns.last();
        if line.len() > 0 && n.start < line.last().end {
            if n.key > line.last().key {
                line.update(line.len() - 1, n)
            } else {
                line
            }
        } else {
            line.push(n)
        }
    }
}

/// The keys of the top line of a channel's notes.
pub fn melody_line(notes: &[MidiNote]) -> (keys: Vec<u8>)
    ensures
        keys@ == melody_notes(notes@).map_values(|n: MidiNote| n.key),
{
    let mut line: Vec<MidiNote> = Vec::new();
    for i in 0..notes.len()
        invariant
            line@ == melody_notes(notes@.subrange(0, i as int)),
    {
        proof {
            assert(notes@.subrange(0, i + 1).drop_last() =~= notes@.subrange(0, i as int));
        }
        let n = notes[i];
        let len = line.len();
        if len > 0 && n.start < line[len - 1].end {
            if n.key > line[len - 1].key {
                line.set(len - 1, n);
            }
        } else {
            line.push(n);
        }
    }
    assert(notes@.subrange(0, notes@.len() as int) =~= notes@);
    let mut keys: Vec<u8> = Vec::new();
    for i in 0..line.len()
        invariant
            keys@.len() == i,
            forall|k: int| 0 <= k < i ==> #[trigger] keys@[k] == line@[k].key,
    {
        keys.push(line[i].key);
    }
    assert(keys@ =~= line@.map_values(|n: MidiNote| n.key));
    keys
}

/// `prior` extended with the programs that `events` sets on channel `c`,
/// each program once, in order of first appearance.
pub open spec fn programs_in(events: Seq<MidiEvent>, c: u8, prior: Seq<u8>) -> Seq<u8>
    decreases events.len(),
{
    if events.len() == 0 {
        prior
    } else {
        let prev = programs_in(events.drop_last(), c, prior);
        match events.last().kind {
            EventKind::ProgramChange(ch, p) => if ch == c && !prev.contains(p) {
                prev.push(p)
            } else {
                prev
            },
            _ => prev,
        }
    }
}

/// The programs set on channel `c` anywhere in the file, each once, in order
/// of first appearance.
pub open spec fn channel_programs_spec(tracks: Seq<Seq<MidiEvent>>, c: u8) -> Seq<u8>
    decreases tracks.len(),
{
    if tracks.len() == 0 {
        Seq::empty()
    } else {
        programs_in(tracks.last(), c, channel_programs_spec(tracks.drop_last(), c))
    }
}

fn contains_byte(v: &Vec<u8>, b: u8) -> (r: bool)
    ensures
        r == v@.contains(b),
{
    for i in 0..v.len()
        invariant
            forall|k: int| 0 <= k < i ==> v@[k] != b,
    {
        if v[i] == b {
            return true;
        }
    }
    false
}

/// For every channel number, the programs set on it, each once, in order of
/// first appearance.
pub fn channel_programs(tracks: &Vec<Vec<MidiEvent>>) -> (r: Vec<Vec<u8>>)
    ensures
        r@.len() == 256,
        forall|c: int| 0 <= c < 256 ==> #[trigger] r@[c]@ == channel_programs_spec(
            tracks_view(tracks@),
            c as u8,
        ),
{
    let ghost tv = tracks_view(tracks@);
    let mut r: Vec<Vec<u8>> = Vec::new();
    for c in 0..256usize
        invariant
            tv == tracks_view(tracks@),
            r@.len() == c,
            forall|k: int| 0 <= k < c ==> #[trigger] r@[k]@ == channel_programs_spec(tv, k as u8),
    {
        let ch = c as u8;
        let mut programs: Vec<u8> = Vec::new();
        for t in 0..tracks.len()
            invariant
                tv == tracks_view(tracks@),
                programs@ == channel_programs_spec(tv.subrange(0, t as int), ch),
        {
            let events = &tracks[t];
            let ghost prior = programs@;
            for i in 0..events.len()
                invariant
                    programs@ == programs_in(events@.subrange(0, i as int), ch, prior),
            {
                proof {
                    assert(events@.subrange(0, i + 1).drop_last() =~= events@.subrange(0, i as int));
                }
                match &events[i].kind {
                    EventKind::ProgramChange(x, p) => {
                        if *x == ch && !contains_byte(&programs, *p) {
                            programs.push(*p);
                        }
                    },
                    _ => {},
                }
            }
            proof {
                assert(events@.subrange(0, events@.len() as int) =~= events@);
                let sub = tv.subrange(0, t + 1);
                assert(sub.drop_last() =~= tv.subrange(0, t as int));
                assert(sub.last() == events@);
            }
        }
        assert(tv.subrange(0, tracks@.len() as int) =~= tv);
        r.push(programs);
    }
    r
}

/// Notes ordered by start tick.
pub open spec fn starts_ordered(ns: Seq<MidiNote>) -> bool {
    forall|i: int, j: int| 0 <= i < j < ns.len() ==> #[trigger] ns[i].start <= #[trigger] ns[j].start
}

/// No note ends before it starts.
pub open spec fn spans_forward(ns: Seq<MidiNote>) -> bool {
    forall|i: int| 0 <= i < ns.len() ==> #[trigger] ns[i].start <= ns[i].end
}

/// Sorting by start keeps every note and orders them by start tick.
pub proof fn lemma_by_start(ns: Seq<MidiNote>)
    requires
        ns.len() <= usize::MAX,
    ensures
        by_start(ns).len() == ns.len(),
        starts_ordered(by_start(ns)),
        forall|i: int| 0 <= i < ns.len() ==> ns.contains(#[trigger] by_start(ns)[i]),
{
    broadcast use vstd::seq_lib::group_to_multiset_ensures;

    let ks = keyed_starts(ns);
    let leq = order_of::<Keyed>();
    Keyed::lemma_total();
    ks.lemma_sort_by_ensures(leq);
    let s = ks.sort_by(leq);
    assert(s.to_multiset().len() == s.len());
    assert(ks.to_multiset().len() == ks.len());
    assert forall|i: int| 0 <= i < s.len() implies #[trigger] ks.contains(s[i]) by {
        assert(s.to_multiset().count(s[i]) > 0);
    }
    assert forall|i: int| 0 <= i < s.len() implies s[i].pos < ns.len() && s[i].key == ns[s[i].pos as int].start
        by {
        assert(ks.contains(s[i]));
        let k = choose|k: int| 0 <= k < ks.len() && ks[k] == s[i];
    }
    assert forall|i: int| 0 <= i < ns.len() implies ns.contains(#[trigger] by_start(ns)[i]) by {
        assert(s[i].pos < ns.len());
        assert(by_start(ns)[i] == ns[s[i].pos as int]);
    }
    assert forall|i: int, j: int| 0 <= i < j < ns.len() implies #[trigger] by_start(ns)[i].start
        <= #[trigger] by_start(ns)[j].start by {
        assert(leq(s[i], s[j]));
        assert(s[i].pos < ns.len() && s[i].key == ns[s[i].pos as int].start);
        assert(s[j].pos < ns.len() && s[j].key == ns[s[j].pos as int].start);
    }
}

proof fn lemma_pairing_forward(events: Seq<MidiEvent>, k: int)
    requires
        0 <= k <= events.len(),
        tick_at(events, k) <= u32::MAX,
    ensures
        forall|i: int|
            0 <= i < pairing(events, k).0.len() ==> #[trigger] pairing(events, k).0[i].start
                <= tick_at(events, k),
        forall|i: int|
            0 <= i < pairing(events, k).1.len() ==> #[trigger] pairing(events, k).1[i].note.start
                <= pairing(events, k).1[i].note.end,
        pairing(events, k).0.len() + pairing(events, k).1.len() <= k,
    decreases k,
{
    if k > 0 {
        lemma_tick_monotone(events, k - 1, k);
        lemma_tick_monotone(events, 0, k);
        lemma_pairing_forward(events, k - 1);
        let (open, closed) = pairing(events, k - 1);
        let tick = tick_at(events, k) as u32;
        assert(tick as int == tick_at(events, k));
        match events[k - 1].kind {
            EventKind::NoteOn(c, key, vel) => {
                if vel > 0 {
                    let o2 = pairing(events, k).0;
                    assert(pairing(events, k).1 == closed);
                    assert forall|i: int| 0 <= i < o2.len() implies #[trigger] o2[i].start
                        <= tick_at(events, k) by {
                        if i < open.len() {
                            assert(o2[i] == open[i]);
                        }
                    }
                } else {
                    assert(pairing(events, k) == close_note(open, closed, c, key, tick));
                    lemma_close_note_forward(open, closed, c, key, tick);
                }
            },
            EventKind::NoteOff(c, key) => {
                assert(pairing(events, k) == close_note(open, closed, c, key, tick));
                lemma_close_note_forward(open, closed, c, key, tick);
            },
            _ => {
                assert(pairing(events, k) == (open, closed));
            },
        }
        let c2 = pairing(events, k).1;
        assert forall|i: int| 0 <= i < c2.len() implies #[trigger] c2[i].note.start <= c2[i].note.end by {
            match events[k - 1].kind {
                EventKind::NoteOn(c, key, vel) => {
                    if vel > 0 {
                        assert(c2[i] == closed[i]);
                        assert(closed[i].note.start <= closed[i].note.end);
                    } else {
                        assert(c2[i] == close_note(open, closed, c, key, tick).1[i]);
                        assert(c2[i].note.start <= c2[i].note.end);
                    }
                },
                EventKind::NoteOff(c, key) => {
                    assert(c2[i] == close_note(open, closed, c, key, tick).1[i]);
                    assert(c2[i].note.start <= c2[i].note.end);
                },
                _ => {
                    assert(c2[i] == closed[i]);
                    assert(closed[i].note.start <= closed[i].note.end);
                },
            }
        }
    }
}

proof fn lemma_close_note_forward(open: Seq<OpenNote>, closed: Seq<ChannelNote>, c: u8, key: u8, tick: u32)
    requires
        forall|i: int| 0 <= i < open.len() ==> #[trigger] open[i].start <= tick,
        forall|i: int| 0 <= i < closed.len() ==> #[trigger] closed[i].note.start <= closed[i].note.end,
    ensures
        forall|i: int|
            0 <= i < close_note(open, closed, c, key, tick).0.len() ==> #[trigger] close_note(
                open,
                closed,
                c,
                key,
                tick,
            ).0[i].start <= tick,
        forall|i: int|
            0 <= i < close_note(open, closed, c, key, tick).1.len() ==> #[trigger] close_note(
                open,
                closed,
                c,
                key,
                tick,
            ).1[i].note.start <= close_note(open, closed, c, key, tick).1[i].note.end,
        close_note(open, closed, c, key, tick).0.len() + close_note(open, closed, c, key, tick).1.len()
            == open.len() + closed.len(),
{
    lemma_first_open_bounds(open, c, key, 0);
    if let Some(p) = first_open_from(open, c, key, 0) {
        let o2 = open.remove(p);
        let c2 = closed.push(ChannelNote { channel: c, note: MidiNote { key, start: open[p].start, end: tick } });
        assert forall|i: int| 0 <= i < o2.len() implies #[trigger] o2[i].start <= tick by {
            if i < p {
                assert(o2[i] == open[i]);
            } else {
                assert(o2[i] == open[i + 1]);
            }
        }
        assert(open[p].start <= tick);
        assert forall|i: int| 0 <= i < c2.len() implies #[trigger] c2[i].note.start <= c2[i].note.end by {
            if i < closed.len() {
                assert(c2[i] == closed[i]);
                assert(closed[i].note.start <= closed[i].note.end);
            } else {
                assert(i == closed.len());
                assert(c2[i].note.start == open[p].start);
                assert(c2[i].note.end == tick);
            }
        }
    }
}

proof fn lemma_first_open_bounds(open: Seq<OpenNote>, c: u8, key: u8, i: int)
    ensures
        first_open_from(open, c, key, i) matches Some(p) ==> i <= p < open.len() && open[p].channel == c
            && open[p].key == key,
    decreases open.len() - i,
{
    if 0 <= i < open.len() && !(open[i].channel == c && open[i].key == key) {
        lemma_first_open_bounds(open, c, key, i + 1);
    }
}

proof fn lemma_channel_notes_forward(closed: Seq<ChannelNote>, c: u8)
    requires
        forall|i: int| 0 <= i < closed.len() ==> #[trigger] closed[i].note.start <= closed[i].note.end,
    ensures
        spans_forward(channel_notes(closed, c)),
        channel_notes(closed, c).len() <= closed.len(),
    decreases closed.len(),
{
    if closed.len() > 0 {
        let prev = closed.drop_last();
        assert forall|i: int| 0 <= i < prev.len() implies #[trigger] prev[i].note.start
            <= prev[i].note.end by {
            assert(prev[i] == closed[i]);
        }
        lemma_channel_notes_forward(prev, c);
        assert(closed.last() == closed[closed.len() - 1]);
    }
}

proof fn lemma_channel_infos(name: Seq<u8>, closed: Seq<ChannelNote>, base: int, c: int)
    requires
        closed.len() <= usize::MAX,
        forall|i: int| 0 <= i < closed.len() ==> #[trigger] closed[i].note.start <= closed[i].note.end,
    ensures
        forall|i: int|
            0 <= i < channel_infos(name, closed, base, c).len() ==> {
                let e = #[trigger] channel_infos(name, closed, base, c)[i];
                &&& e.0 == base + i
                &&& e.3.len() > 0
                &&& starts_ordered(e.3)
                &&& spans_forward(e.3)
                &&& e.4 == count_overlaps(e.3)
            },
    decreases c,
{
    if c > 0 {
        lemma_channel_infos(name, closed, base, c - 1);
        let prev = channel_infos(name, closed, base, c - 1);
        let ns = channel_notes(closed, (c - 1) as u8);
        lemma_channel_notes_forward(closed, (c - 1) as u8);
        lemma_by_start(ns);
        let sorted = by_start(ns);
        assert forall|i: int| 0 <= i < sorted.len() implies #[trigger] sorted[i].start
            <= sorted[i].end by {
            let j = choose|j: int| 0 <= j < ns.len() && ns[j] == sorted[i];
            assert(ns[j].start <= ns[j].end);
        }
        let cur = channel_infos(name, closed, base, c);
        assert forall|i: int| 0 <= i < prev.len() implies #[trigger] cur[i] == prev[i] by {}
    }
}

/// Each entry of the channel list of a file (as `midi_tracks` returns it)
/// carries its own position as index, holds at least one note, has its
/// notes ordered by start tick with none ending before it starts, and
/// counts its overlaps over that order.
pub proof fn lemma_track_infos_ordered(tracks: Seq<Seq<MidiEvent>>)
    requires
        all_ticks_fit(tracks),
        forall|t: int| 0 <= t < tracks.len() ==> #[trigger] tracks[t].len() <= usize::MAX,
    ensures
        forall|i: int|
            0 <= i < track_infos_spec(tracks).len() ==> {
                let e = #[trigger] track_infos_spec(tracks)[i];
                &&& e.0 == i
                &&& e.3.len() > 0
                &&& starts_ordered(e.3)
                &&& spans_forward(e.3)
                &&& e.4 == count_overlaps(e.3)
            },
    decreases tracks.len(),
{
    if tracks.len() > 0 {
        let front = tracks.drop_last();
        assert forall|t: int| 0 <= t < front.len() implies ticks_fit(#[trigger] front[t]) by {
            assert(front[t] == tracks[t]);
        }
        assert forall|t: int| 0 <= t < front.len() implies #[trigger] front[t].len() <= usize::MAX by {
            assert(front[t] == tracks[t]);
        }
        lemma_track_infos_ordered(front);
        let prev = track_infos_spec(front);
        let ev = tracks.last();
        assert(ev == tracks[tracks.len() - 1]);
        assert(ticks_fit(ev));
        lemma_pairing_forward(ev, ev.len() as int);
        let closed = pairing(ev, ev.len() as int).1;
        let name = last_name(ev, ev.len() as int);
        lemma_channel_infos(name, closed, prev.len() as int, 256);
        let all = track_infos_spec(tracks);
        let tail = channel_infos(name, closed, prev.len() as int, 256);
        assert(all == prev + tail);
        assert forall|i: int| 0 <= i < all.len() implies {
            let e = #[trigger] all[i];
            &&& e.0 == i
            &&& e.3.len() > 0
            &&& starts_ordered(e.3)
            &&& spans_forward(e.3)
            &&& e.4 == count_overlaps(e.3)
        } by {
            if i < prev.len() {
                assert(all[i] == prev[i]);
            } else {
                assert(all[i] == tail[i - prev.len()]);
            }
        }
    }
}

/// The top line taken from notes in order of start is monophonic: each of
/// its notes has ended by the time the next one starts. Every note of the
/// line is one of the given notes, and the line is empty only when they are.
pub proof fn lemma_melody_monophonic(ns: Seq<MidiNote>)
    requires
        starts_ordered(ns),
        spans_forward(ns),
    ensures
        forall|k: int|
            0 <= k < melody_notes(ns).len() - 1 ==> #[trigger] melody_notes(ns)[k].end
                <= melody_notes(ns)[k + 1].start,
        forall|k: int| 0 <= k < melody_notes(ns).len() ==> ns.contains(#[trigger] melody_notes(ns)[k]),
        melody_notes(ns).len() <= ns.len(),
        melody_notes(ns).len() == 0 <==> ns.len() == 0,
    decreases ns.len(),
{
    if ns.len() > 0 {
        let front = ns.drop_last();
        assert forall|i: int, j: int| 0 <= i < j < front.len() implies #[trigger] front[i].start
            <= #[trigger] front[j].start by {
            assert(front[i] == ns[i] && front[j] == ns[j]);
        }
        assert forall|i: int| 0 <= i < front.len() implies #[trigger] front[i].start <= front[i].end by {
            assert(front[i] == ns[i]);
        }
        lemma_melody_monophonic(front);
        let line = melody_notes(front);
        let n = ns.last();
        let out = melody_notes(ns);
        assert(n == ns[ns.len() - 1]);
        assert forall|k: int| 0 <= k < line.len() implies ns.contains(#[trigger] line[k]) by {
            assert(front.contains(line[k]));
            let j = choose|j: int| 0 <= j < front.len() && front[j] == line[k];
            assert(ns[j] == line[k]);
        }
        if line.len() > 0 {
            let last = line[line.len() - 1];
            assert(front.contains(last));
            let j = choose|j: int| 0 <= j < front.len() && front[j] == last;
            assert(ns[j] == last);
            assert(last.start <= n.start);
        }
        assert forall|k: int| 0 <= k < out.len() implies ns.contains(#[trigger] out[k]) by {
            if k < line.len() && out[k] == line[k] {
            } else {
                assert(out[k] == n);
                assert(ns[ns.len() - 1] == out[k]);
            }
        }
        assert forall|k: int| 0 <= k < out.len() - 1 implies #[trigger] out[k].end <= out[k + 1].start by {
            if line.len() > 0 && n.start < line[line.len() - 1].end {
                if n.key > line[line.len() - 1].key {
                    if k + 1 < line.len() - 1 {
                        assert(out[k] == line[k] && out[k + 1] == line[k + 1]);
                    } else {
                        assert(out[k] == line[k] && out[k + 1] == n);
                        assert(line[k].end <= line[k + 1].start);
                    }
                } else {
                    assert(out[k] == line[k] && out[k + 1] == line[k + 1]);
                }
            } else {
                if k + 1 < line.len() {
                    assert(out[k] == line[k] && out[k + 1] == line[k + 1]);
                } else {
                    assert(out[k] == line[k] && out[k + 1] == n);
                }
            }
        }
    }
}

proof fn lemma_programs_in_distinct(events: Seq<MidiEvent>, c: u8, prior: Seq<u8>)
    requires
        prior.no_duplicates(),
    ensures
        programs_in(events, c, prior).no_duplicates(),
    decreases events.len(),
{
    if events.len() > 0 {
        lemma_programs_in_distinct(events.drop_last(), c, prior);
    }
}

/// The programs listed for a channel are listed once each.
pub proof fn lemma_channel_programs_distinct(tracks: Seq<Seq<MidiEvent>>, c: u8)
    ensures
        channel_programs_spec(tracks, c).no_duplicates(),
    decreases tracks.len(),
{
    if tracks.len() > 0 {
        lemma_channel_programs_distinct(tracks.drop_last(), c);
        lemma_programs_in_distinct(tracks.last(), c, channel_programs_spec(tracks.drop_last(), c));
    }
}

/// Event `j` of a track is a note-on (with a velocity above zero) of
/// channel `ch` and key `key`, heard at tick `t`.
pub open spec fn starts_note_at(events: Seq<MidiEvent>, j: int, ch: u8, key: u8, t: int) -> bool {
    &&& 0 <= j < events.len()
    &&& events[j].kind matches EventKind::NoteOn(c, k, v) && c == ch && k == key && v > 0
    &&& tick_at(events, j + 1) == t
}

/// Event `j` of a track is a note-off (or a note-on with velocity zero) of
/// channel `ch` and key `key`, heard at tick `t`.
pub open spec fn ends_note_at(events: Seq<MidiEvent>, j: int, ch: u8, key: u8, t: int) -> bool {
    &&& 0 <= j < events.len()
    &&& match events[j].kind {
        EventKind::NoteOff(c, k) => c == ch && k == key,
        EventKind::NoteOn(c, k, v) => c == ch && k == key && v == 0,
        _ => false,
    }
    &&& tick_at(events, j + 1) == t
}

/// One of the first `k` events is a note-on of channel `ch` and key `key`
/// heard at tick `t`.
#[verifier::opaque]
pub open spec fn started_before(events: Seq<MidiEvent>, k: int, ch: u8, key: u8, t: int) -> bool {
    exists|j: int| 0 <= j < k && #[trigger] starts_note_at(events, j, ch, key, t)
}

/// One of the first `k` events is a note-off of channel `ch` and key `key`
/// heard at tick `t`.
#[verifier::opaque]
pub open spec fn ended_before(events: Seq<MidiEvent>, k: int, ch: u8, key: u8, t: int) -> bool {
    exists|j: int| 0 <= j < k && #[trigger] ends_note_at(events, j, ch, key, t)
}

/// The sounding notes were each started by a note-on of their channel and
/// key among the first `k` events.
pub open spec fn open_sourced(events: Seq<MidiEvent>, open: Seq<OpenNote>, k: int) -> bool {
    forall|i: int|
        0 <= i < open.len() ==> started_before(events, k, #[trigger] open[i].channel, open[i].key, open[i].start as int)
}

/// The finished notes were each started by a note-on, and ended by a
/// note-off, of their own channel and key among the first `k` events.
pub open spec fn closed_sourced(events: Seq<MidiEvent>, closed: Seq<ChannelNote>, k: int) -> bool {
    forall|i: int|
        0 <= i < closed.len() ==> {
            &&& started_before(events, k, #[trigger] closed[i].channel, closed[i].note.key, closed[i].note.start as int)
            &&& ended_before(events, k, closed[i].channel, closed[i].note.key, closed[i].note.end as int)
        }
}

proof fn lemma_before_widen(events: Seq<MidiEvent>, k: int, k2: int, ch: u8, key: u8, t: int)
    requires
        k <= k2,
    ensures
        started_before(events, k, ch, key, t) ==> started_before(events, k2, ch, key, t),
        ended_before(events, k, ch, key, t) ==> ended_before(events, k2, ch, key, t),
{
    reveal(started_before);
    reveal(ended_before);
    if started_before(events, k, ch, key, t) {
        let j = choose|j: int| 0 <= j < k && #[trigger] starts_note_at(events, j, ch, key, t);
        assert(starts_note_at(events, j, ch, key, t));
    }
    if ended_before(events, k, ch, key, t) {
        let j = choose|j: int| 0 <= j < k && #[trigger] ends_note_at(events, j, ch, key, t);
        assert(ends_note_at(events, j, ch, key, t));
    }
}

proof fn lemma_before_at(events: Seq<MidiEvent>, j: int, k: int, ch: u8, key: u8, t: int)
    requires
        0 <= j < k,
    ensures
        starts_note_at(events, j, ch, key, t) ==> started_before(events, k, ch, key, t),
        ends_note_at(events, j, ch, key, t) ==> ended_before(events, k, ch, key, t),
{
    reveal(started_before);
    reveal(ended_before);
}

/// Notes are paired within their channel and key: after the first `k`
/// events of a track, every sounding note, and every finished note of
/// channel `c` and key `n`, starts at the tick of a note-on of channel `c`
/// and key `n` among those events, and every finished note ends at the tick
/// of a note-off of that same channel and key. A note-off of another channel
/// or key never ends it.
pub proof fn lemma_pairing_sources(events: Seq<MidiEvent>, k: int)
    requires
        0 <= k <= events.len(),
        tick_at(events, k) <= u32::MAX,
    ensures
        open_sourced(events, pairing(events, k).0, k),
        closed_sourced(events, pairing(events, k).1, k),
    decreases k,
{
    if k > 0 {
        lemma_tick_monotone(events, k - 1, k);
        lemma_tick_monotone(events, 0, k);
        lemma_pairing_sources(events, k - 1);
        let open = pairing(events, k - 1).0;
        let closed = pairing(events, k - 1).1;
        let tick = tick_at(events, k) as u32;
        assert(tick as int == tick_at(events, k));
        lemma_sourced_widen(events, open, closed, k - 1);
        let o2 = pairing(events, k).0;
        let c2 = pairing(events, k).1;
        match events[k - 1].kind {
            EventKind::NoteOn(ch, key, vel) => {
                if vel > 0 {
                    assert(c2 == closed);
                    assert(o2 == open.push(OpenNote { channel: ch, key, start: tick }));
                    lemma_before_at(events, k - 1, k, ch, key, tick as int);
                    assert forall|i: int| 0 <= i < o2.len() implies started_before(
                        events,
                        k,
                        #[trigger] o2[i].channel,
                        o2[i].key,
                        o2[i].start as int,
                    ) by {
                        if i < open.len() {
                            assert(o2[i] == open[i]);
                        }
                    }
                } else {
                    lemma_before_at(events, k - 1, k, ch, key, tick as int);
                    assert((o2, c2) == close_note(open, closed, ch, key, tick));
                    lemma_close_note_sources(events, k, open, closed, ch, key, tick);
                }
            },
            EventKind::NoteOff(ch, key) => {
                lemma_before_at(events, k - 1, k, ch, key, tick as int);
                assert((o2, c2) == close_note(open, closed, ch, key, tick));
                lemma_close_note_sources(events, k, open, closed, ch, key, tick);
            },
            _ => {
                assert(o2 == open && c2 == closed);
            },
        }
    }
}

proof fn lemma_sourced_widen(events: Seq<MidiEvent>, open: Seq<OpenNote>, closed: Seq<ChannelNote>, k: int)
    requires
        open_sourced(events, open, k),
        closed_sourced(events, closed, k),
    ensures
        open_sourced(events, open, k + 1),
        closed_sourced(events, closed, k + 1),
{
    assert forall|i: int| 0 <= i < open.len() implies started_before(
        events,
        k + 1,
        #[trigger] open[i].channel,
        open[i].key,
        open[i].start as int,
    ) by {
        lemma_before_widen(events, k, k + 1, open[i].channel, open[i].key, open[i].start as int);
    }
    assert forall|i: int| 0 <= i < closed.len() implies {
        &&& started_before(events, k + 1, #[trigger] closed[i].channel, closed[i].note.key, closed[i].note.start as int)
        &&& ended_before(events, k + 1, closed[i].channel, closed[i].note.key, closed[i].note.end as int)
    } by {
        let c = closed[i];
        lemma_before_widen(events, k, k + 1, c.channel, c.note.key, c.note.start as int);
        lemma_before_widen(events, k, k + 1, c.channel, c.note.key, c.note.end as int);
    }
}

proof fn lemma_close_note_sources(
    events: Seq<MidiEvent>,
    k: int,
    open: Seq<OpenNote>,
    closed: Seq<ChannelNote>,
    ch: u8,
    key: u8,
    tick: u32,
)
    requires
        ended_before(events, k, ch, key, tick as int),
        open_sourced(events, open, k),
        closed_sourced(events, closed, k),
    ensures
        open_sourced(events, close_note(open, closed, ch, key, tick).0, k),
        closed_sourced(events, close_note(open, closed, ch, key, tick).1, k),
{
    lemma_first_open_bounds(open, ch, key, 0);
    match first_open_from(open, ch, key, 0) {
        Some(p) => {
            let o2 = open.remove(p);
            let n = ChannelNote { channel: ch, note: MidiNote { key, start: open[p].start, end: tick } };
            let c2 = closed.push(n);
            assert(close_note(open, closed, ch, key, tick) == (o2, c2));
            assert forall|i: int| 0 <= i < o2.len() implies started_before(
                events,
                k,
                #[trigger] o2[i].channel,
                o2[i].key,
                o2[i].start as int,
            ) by {
                if i < p {
                    assert(o2[i] == open[i]);
                } else {
                    assert(o2[i] == open[i + 1]);
                }
            }
            assert(started_before(events, k, open[p].channel, open[p].key, open[p].start as int));
            assert forall|i: int| 0 <= i < c2.len() implies {
                &&& started_before(events, k, #[trigger] c2[i].channel, c2[i].note.key, c2[i].note.start as int)
                &&& ended_before(events, k, c2[i].channel, c2[i].note.key, c2[i].note.end as int)
            } by {
                if i < closed.len() {
                    assert(c2[i] == closed[i]);
                } else {
                    assert(c2[i] == n);
                }
            }
        },
        None => {},
    }
}

proof fn lemma_overlaps_prefix(ns: Seq<MidiNote>, m: int)
    requires
        0 <= m < ns.len(),
    ensures
        count_overlaps(ns.take(m + 1)) == Seq::new(m as nat, |i: int| i + 1).filter(
            |i: int| ns[i].start < ns[i - 1].end,
        ).len(),
    decreases m,
{
    let p = |i: int| ns[i].start < ns[i - 1].end;
    if m == 0 {
        assert(Seq::new(0nat, |i: int| i + 1) =~= Seq::<int>::empty());
        assert(Seq::<int>::empty().filter(p) =~= Seq::<int>::empty()) by {
            reveal(Seq::filter);
        }
    } else {
        lemma_overlaps_prefix(ns, m - 1);
        let t = ns.take(m + 1);
        assert(t.drop_last() =~= ns.take(m));
        assert(t.last() == ns[m] && t[t.len() - 2] == ns[m - 1]);
        let idx = Seq::new(m as nat, |i: int| i + 1);
        assert(idx =~= Seq::new((m - 1) as nat, |i: int| i + 1).push(m));
        Seq::new((m - 1) as nat, |i: int| i + 1).lemma_filter_len_push(p, m);
    }
}

/// The overlap count is the number of positions `i >= 1` at which a note
/// starts before the note just before it ends: a note that starts at or
/// after the end of its predecessor never counts, however long an earlier
/// note lasts.
pub proof fn lemma_overlaps_are_adjacent(ns: Seq<MidiNote>)
    ensures
        count_overlaps(ns) == Seq::new(
            (if ns.len() > 0 {
                ns.len() - 1
            } else {
                0
            }) as nat,
            |i: int| i + 1,
        ).filter(|i: int| ns[i].start < ns[i - 1].end).len(),
{
    if ns.len() == 0 {
        assert(Seq::new(0nat, |i: int| i + 1) =~= Seq::<int>::empty());
        assert(Seq::<int>::empty().filter(|i: int| ns[i].start < ns[i - 1].end) =~= Seq::<int>::empty()) by {
            reveal(Seq::filter);
        }
    } else {
        lemma_overlaps_prefix(ns, ns.len() - 1);
        assert(ns.take(ns.len() as int) =~= ns);
    }
}

} // verus!
