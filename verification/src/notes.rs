//! Grouping a smoothed pitch track into notes.
//!
//! Whether a voiced frame leaves the note being built depends on the mean
//! pitch of that note, which is floating-point arithmetic; the caller works
//! that out and hands its answer in. Every other decision of the grouping
//! is made here.

use vstd::prelude::*;
use crate::binary32::Binary32;
use crate::smoothing::{median, median_spec, voiced_values};

verus! {

/// Fewest voiced frames a note must have to be kept.
pub const MIN_NOTE_FRAMES: usize = 5;

/// Most unvoiced frames in a row that a note may span: a single dropped
/// frame; a longer silence ends the note.
pub const MAX_GAP_FRAMES: usize = 1;

/// A note: its pitch and its first and last voiced frame.
#[derive(Clone, Copy, Debug, PartialEq, Eq, Structural)]
pub struct Note {
    pub semitones: Binary32,
    pub start: usize,
    pub end: usize,
}

/// `notes` after closing the note built from `current`: a note carrying the
/// median pitch is appended when `current` has enough frames.
pub open spec fn push_note_spec(notes: Seq<Note>, current: Seq<Binary32>, start: usize, end: usize) -> Seq<Note> {
    if current.len() >= MIN_NOTE_FRAMES {
        notes.push(Note { semitones: median_spec(current), start, end })
    } else {
        notes
    }
}

/// Closes the note built from `current`: appends it to `notes` when it has at
/// least `MIN_NOTE_FRAMES` frames, then empties `current`.
pub fn push_note(notes: &mut Vec<Note>, current: &mut Vec<Binary32>, start: usize, end: usize)
    ensures
        final(notes)@ == push_note_spec(old(notes)@, old(current)@, start, end),
        final(current)@ == Seq::<Binary32>::empty(),
{
    if current.len() >= MIN_NOTE_FRAMES {
        let m = median(current.as_slice());
        notes.push(Note { semitones: m, start, end });
    }
    current.clear();
}

/// Number of unvoiced frames directly before frame `j`.
pub open spec fn gap_before(frames: Seq<Option<Binary32>>, j: int) -> nat
    decreases j,
{
    if j <= 0 || j > frames.len() || frames[j - 1] is Some {
        0
    } else {
        1 + gap_before(frames, j - 1)
    }
}

/// Between frames `s` and `e`, no voiced frame follows more than
/// `MAX_GAP_FRAMES` unvoiced ones.
pub open spec fn no_long_gap(frames: Seq<Option<Binary32>>, s: int, e: int) -> bool {
    forall|j: int|
        s < j <= e && #[trigger] frames[j] is Some ==> gap_before(frames, j) <= MAX_GAP_FRAMES
}

/// The voiced pitches of frames `s` to `e`, both included.
pub open spec fn span_values(frames: Seq<Option<Binary32>>, s: int, e: int) -> Seq<Binary32> {
    voiced_values(frames.subrange(s, e + 1))
}

/// `n` is a note of `frames`: it starts and ends on voiced frames, holds at
/// least `MIN_NOTE_FRAMES` voiced frames, never spans a longer silence than
/// `MAX_GAP_FRAMES`, and its pitch is the median of its voiced frames.
pub open spec fn note_of(n: Note, frames: Seq<Option<Binary32>>) -> bool {
    &&& n.start <= n.end < frames.len()
    &&& frames[n.start as int] is Some
    &&& frames[n.end as int] is Some
    &&& span_values(frames, n.start as int, n.end as int).len() >= MIN_NOTE_FRAMES
    &&& n.semitones == median_spec(span_values(frames, n.start as int, n.end as int))
    &&& no_long_gap(frames, n.start as int, n.end as int)
}

/// Every note of `notes` is a note of `frames`, and each ends before the
/// next one starts.
pub open spec fn notes_of(notes: Seq<Note>, frames: Seq<Option<Binary32>>) -> bool {
    &&& forall|k: int| 0 <= k < notes.len() ==> note_of(#[trigger] notes[k], frames)
    &&& forall|k: int| 0 <= k < notes.len() - 1 ==> #[trigger] notes[k].end < notes[k + 1].start
}

proof fn lemma_gap_before_prefix(frames: Seq<Option<Binary32>>, x: Option<Binary32>, j: int)
    requires
        j <= frames.len(),
    ensures
        gap_before(frames.push(x), j) == gap_before(frames, j),
    decreases j,
{
    if j > 0 {
        lemma_gap_before_prefix(frames, x, j - 1);
    }
}

proof fn lemma_gap_before_trailing(frames: Seq<Option<Binary32>>, e: int, j: int)
    requires
        0 <= e < j <= frames.len(),
        frames[e] is Some,
        forall|k: int| e < k < j ==> #[trigger] frames[k] is None,
    ensures
        gap_before(frames, j) == j - 1 - e,
    decreases j,
{
    if j - 1 > e {
        lemma_gap_before_trailing(frames, e, j - 1);
    }
}

proof fn lemma_note_of_push(n: Note, frames: Seq<Option<Binary32>>, x: Option<Binary32>)
    requires
        note_of(n, frames),
    ensures
        note_of(n, frames.push(x)),
{
    let f2 = frames.push(x);
    assert(f2.subrange(n.start as int, n.end + 1) =~= frames.subrange(n.start as int, n.end + 1));
    assert forall|j: int| n.start < j <= n.end && #[trigger] f2[j] is Some implies gap_before(f2, j)
        <= MAX_GAP_FRAMES by {
        lemma_gap_before_prefix(frames, x, j);
        assert(frames[j] is Some);
    }
}

proof fn lemma_notes_of_push(notes: Seq<Note>, frames: Seq<Option<Binary32>>, x: Option<Binary32>)
    requires
        notes_of(notes, frames),
    ensures
        notes_of(notes, frames.push(x)),
{
    assert forall|k: int| 0 <= k < notes.len() implies note_of(#[trigger] notes[k], frames.push(x)) by {
        lemma_note_of_push(notes[k], frames, x);
    }
}

/// Builds notes one frame at a time.
pub struct Segmenter {
    notes: Vec<Note>,
    current: Vec<Binary32>,
    start: usize,
    end: usize,
    gap: usize,
    count: usize,
    frames: Ghost<Seq<Option<Binary32>>>,
}

impl Segmenter {
    /// The frames seen so far.
    pub closed spec fn frames(&self) -> Seq<Option<Binary32>> {
        self.frames@
    }

    /// The notes closed so far.
    pub closed spec fn notes(&self) -> Seq<Note> {
        self.notes@
    }

    /// The pitches of the note being built.
    pub closed spec fn pending(&self) -> Seq<Binary32> {
        self.current@
    }

    /// First voiced frame of the note being built.
    pub closed spec fn pending_start(&self) -> usize {
        self.start
    }

    /// Last voiced frame of the note being built.
    pub closed spec fn pending_end(&self) -> usize {
        self.end
    }

    /// Unvoiced frames seen since the last voiced one.
    pub closed spec fn gap(&self) -> usize {
        self.gap
    }

    /// The state is consistent with the frames seen.
    pub closed spec fn wf(&self) -> bool {
        &&& self.count == self.frames@.len()
        &&& notes_of(self.notes@, self.frames@)
        &&& self.current@.len() == 0 ==> (self.notes@.len() > 0 ==> self.notes@.last().end
            < self.frames@.len())
        &&& self.current@.len() == 0 ==> self.gap <= MAX_GAP_FRAMES + 1
        &&& self.current@.len() > 0 ==> {
            &&& self.start <= self.end < self.frames@.len()
            &&& self.frames@[self.start as int] is Some
            &&& self.frames@[self.end as int] is Some
            &&& self.current@ == span_values(self.frames@, self.start as int, self.end as int)
            &&& no_long_gap(self.frames@, self.start as int, self.end as int)
            &&& self.notes@.len() > 0 ==> self.notes@.last().end < self.start
            &&& self.gap == self.frames@.len() - 1 - self.end
            &&& self.gap <= MAX_GAP_FRAMES
            &&& forall|k: int| self.end < k < self.frames@.len() ==> #[trigger] self.frames@[k] is None
        }
    }

    /// A segmenter that has seen no frame.
    pub fn new() -> (s: Segmenter)
        ensures
            s.wf(),
            s.frames() == Seq::<Option<Binary32>>::empty(),
            s.notes() == Seq::<Note>::empty(),
            s.pending() == Seq::<Binary32>::empty(),
    {
        Segmenter {
            notes: Vec::new(),
            current: Vec::new(),
            start: 0,
            end: 0,
            gap: 0,
            count: 0,
            frames: Ghost(Seq::empty()),
        }
    }

    /// Number of frames seen so far.
    pub fn frame_count(&self) -> (n: usize)
        requires
            self.wf(),
        ensures
            n == self.frames().len(),
    {
        self.count
    }

    /// The pitches of the note being built, in frame order.
    pub fn current(&self) -> (c: &Vec<Binary32>)
        ensures
            c@ == self.pending(),
    {
        &self.current
    }

    /// Takes in a voiced frame. `leaves_note` says whether its pitch has left
    /// the note being built (it is not read when no note is being built).
    pub fn voiced(&mut self, pitch: Binary32, leaves_note: bool)
        requires
            old(self).wf(),
            old(self).frames().len() < usize::MAX,
        ensures
            final(self).wf(),
            final(self).frames() == old(self).frames().push(Some(pitch)),
            final(self).pending_end() == old(self).frames().len(),
            final(self).gap() == 0,
            if old(self).pending().len() == 0 {
                &&& final(self).notes() == old(self).notes()
                &&& final(self).pending() == seq![pitch]
                &&& final(self).pending_start() == old(self).frames().len()
            } else if leaves_note {
                &&& final(self).notes() == push_note_spec(
                    old(self).notes(),
                    old(self).pending(),
                    old(self).pending_start(),
                    old(self).pending_end(),
                )
                &&& final(self).pending() == seq![pitch]
                &&& final(self).pending_start() == old(self).frames().len()
            } else {
                &&& final(self).notes() == old(self).notes()
                &&& final(self).pending() == old(self).pending().push(pitch)
                &&& final(self).pending_start() == old(self).pending_start()
            },
    {
        let i = self.count;
        let ghost f0 = self.frames@;
        let ghost f1 = f0.push(Some(pitch));
        proof {
            lemma_notes_of_push(self.notes@, f0, Some(pitch));
        }
        if self.current.len() == 0 {
            self.start = i;
        } else if leaves_note {
            proof {
                let n = Note { semitones: median_spec(self.current@), start: self.start, end: self.end };
                if self.current@.len() >= MIN_NOTE_FRAMES {
                    assert(note_of(n, f0));
                    lemma_note_of_push(n, f0, Some(pitch));
                }
            }
            push_note(&mut self.notes, &mut self.current, self.start, self.end);
            self.start = i;
        } else {
            proof {
                lemma_gap_before_prefix(f0, Some(pitch), i as int);
                lemma_gap_before_trailing(f0, self.end as int, i as int);
                assert forall|j: int| self.start < j <= i && #[trigger] f1[j] is Some implies gap_before(
                    f1,
                    j,
                ) <= MAX_GAP_FRAMES by {
                    if j < i {
                        lemma_gap_before_prefix(f0, Some(pitch), j);
                        assert(f0[j] is Some);
                        assert(j <= self.end);
                    }
                }
                assert(f1.subrange(self.start as int, i + 1) =~= f1.subrange(
                    self.start as int,
                    i as int,
                ).push(Some(pitch)));
                assert(f1.subrange(self.start as int, i + 1).drop_last() =~= f1.subrange(
                    self.start as int,
                    i as int,
                ));
                let mid = f1.subrange(self.start as int, i as int);
                assert forall|k: int| self.end + 1 <= k < i implies #[trigger] f0[k] is None by {}
                lemma_voiced_values_none_tail(f0, self.start as int, self.end as int, i as int);
                assert(mid =~= f0.subrange(self.start as int, i as int));
            }
        }
        self.current.push(pitch);
        self.end = i;
        self.gap = 0;
        self.count = i + 1;
        self.frames = Ghost(f1);
        proof {
            assert(f1.subrange(i as int, i + 1).drop_last() =~= Seq::<Option<Binary32>>::empty());
            assert(f1.subrange(i as int, i + 1).last() == Some(pitch));
            assert(voiced_values(Seq::<Option<Binary32>>::empty()) =~= Seq::<Binary32>::empty());
            assert(self.count == self.frames@.len());
            assert(notes_of(self.notes@, self.frames@));
            assert(self.start <= self.end < self.frames@.len());
            assert(self.frames@[self.start as int] is Some);
            assert(self.current@ == span_values(self.frames@, self.start as int, self.end as int));
            assert(no_long_gap(self.frames@, self.start as int, self.end as int));
            assert(self.notes@.len() > 0 ==> self.notes@.last().end < self.start);
        }
    }

    /// Takes in an unvoiced frame.
    pub fn unvoiced(&mut self)
        requires
            old(self).wf(),
            old(self).frames().len() < usize::MAX,
        ensures
            final(self).wf(),
            final(self).frames() == old(self).frames().push(None),
            final(self).pending_start() == old(self).pending_start(),
            final(self).pending_end() == old(self).pending_end(),
            if old(self).pending().len() == 0 {
                &&& final(self).notes() == old(self).notes()
                &&& final(self).pending() == old(self).pending()
                &&& final(self).gap() == old(self).gap()
            } else if old(self).gap() + 1 > MAX_GAP_FRAMES {
                &&& final(self).notes() == push_note_spec(
                    old(self).notes(),
                    old(self).pending(),
                    old(self).pending_start(),
                    old(self).pending_end(),
                )
                &&& final(self).pending() == Seq::<Binary32>::empty()
                &&& final(self).gap() == old(self).gap() + 1
            } else {
                &&& final(self).notes() == old(self).notes()
                &&& final(self).pending() == old(self).pending()
                &&& final(self).gap() == old(self).gap() + 1
            },
    {
        let i = self.count;
        let ghost f0 = self.frames@;
        let ghost f1 = f0.push(None);
        proof {
            lemma_notes_of_push(self.notes@, f0, None);
        }
        if self.current.len() > 0 {
            self.gap = self.gap + 1;
            proof {
                assert(f1.subrange(self.start as int, self.end + 1) =~= f0.subrange(
                    self.start as int,
                    self.end + 1,
                ));
                assert forall|j: int| self.start < j <= self.end && #[trigger] f1[j] is Some implies gap_before(
                    f1,
                    j,
                ) <= MAX_GAP_FRAMES by {
                    lemma_gap_before_prefix(f0, None, j);
                    assert(f0[j] is Some);
                }
            }
            if self.gap > MAX_GAP_FRAMES {
                proof {
                    let n = Note { semitones: median_spec(self.current@), start: self.start, end: self.end };
                    if self.current@.len() >= MIN_NOTE_FRAMES {
                        assert(note_of(n, f1));
                    }
                }
                push_note(&mut self.notes, &mut self.current, self.start, self.end);
            }
        }
        self.count = i + 1;
        self.frames = Ghost(f1);
    }

    /// Closes the last note and hands over all notes. Each is a note of the
    /// frames seen, and each ends before the next starts.
    pub fn finish(self) -> (notes: Vec<Note>)
        requires
            self.wf(),
        ensures
            notes@ == push_note_spec(
                self.notes(),
                self.pending(),
                self.pending_start(),
                self.pending_end(),
            ),
            notes_of(notes@, self.frames()),
    {
        let mut notes = self.notes;
        let mut current = self.current;
        proof {
            let n = Note { semitones: median_spec(current@), start: self.start, end: self.end };
            if current@.len() >= MIN_NOTE_FRAMES {
                assert(note_of(n, self.frames@));
            }
        }
        push_note(&mut notes, &mut current, self.start, self.end);
        notes
    }
}

proof fn lemma_voiced_values_none_tail(f: Seq<Option<Binary32>>, s: int, e: int, j: int)
    requires
        0 <= s <= e < j <= f.len(),
        forall|k: int| e < k < j ==> #[trigger] f[k] is None,
    ensures
        voiced_values(f.subrange(s, j)) == voiced_values(f.subrange(s, e + 1)),
    decreases j,
{
    if j > e + 1 {
        assert(f.subrange(s, j).drop_last() =~= f.subrange(s, j - 1));
        assert(f.subrange(s, j).last() == f[j - 1]);
        lemma_voiced_values_none_tail(f, s, e, j - 1);
    }
}

} // verus!
