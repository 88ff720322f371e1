//! Note names in scientific pitch notation, and instrument names of
//! General MIDI programs.

use vstd::prelude::*;
use vstd::string::{StringExecFns, StrSliceExecFns};

verus! {

/// The names of the twelve pitch classes, from C.
pub open spec fn note_names() -> Seq<Seq<char>> {
    seq![
        seq!['C'],
        seq!['C', '#'],
        seq!['D'],
        seq!['D', '#'],
        seq!['E'],
        seq!['F'],
        seq!['F', '#'],
        seq!['G'],
        seq!['G', '#'],
        seq!['A'],
        seq!['A', '#'],
        seq!['B'],
    ]
}

/// The decimal digit `d`.
pub open spec fn digit_char(d: int) -> char {
    seq!['0', '1', '2', '3', '4', '5', '6', '7', '8', '9'][d]
}

/// `n` in decimal, without leading zeros.
pub open spec fn digits(n: nat) -> Seq<char>
    decreases n,
{
    if n < 10 {
        seq![digit_char(n as int)]
    } else {
        digits(n / 10).push(digit_char((n % 10) as int))
    }
}

/// `n` in decimal, with a minus sign when negative.
pub open spec fn decimal(n: int) -> Seq<char> {
    if n < 0 {
        seq!['-'] + digits((-n) as nat)
    } else {
        digits(n as nat)
    }
}

/// The name of MIDI note `midi`: its pitch class and its octave, where
/// octave 4 starts at middle C (60).
pub open spec fn note_name_spec(midi: int) -> Seq<char> {
    note_names()[midi % 12] + decimal(midi / 12 - 1)
}

fn append_digits(s: &mut String, n: u64)
    ensures
        final(s)@ == old(s)@ + digits(n as nat),
    decreases n,
{
    let table = "0123456789";
    proof {
        reveal_strlit("0123456789");
    }
    if n >= 10 {
        append_digits(s, n / 10);
    }
    let d = (n % 10) as usize;
    s.append(table.substring_char(d, d + 1));
    proof {
        assert(table@.subrange(d as int, d + 1) =~= seq![digit_char(d as int)]);
        if n >= 10 {
            assert(digits(n as nat) == digits((n / 10) as nat).push(digit_char((n % 10) as int)));
        }
        assert(final(s)@ =~= old(s)@ + digits(n as nat));
    }
}

fn append_decimal(s: &mut String, n: i64)
    requires
        n > i64::MIN,
    ensures
        final(s)@ == old(s)@ + decimal(n as int),
{
    if n < 0 {
        s.append("-");
        proof {
            reveal_strlit("-");
        }
        append_digits(s, (-n) as u64);
        proof {
            assert(final(s)@ =~= old(s)@ + decimal(n as int));
        }
    } else {
        append_digits(s, n as u64);
    }
}

fn pitch_class_name(pc: u64) -> (name: &'static str)
    requires
        pc < 12,
    ensures
        name@ == note_names()[pc as int],
{
    let name = match pc {
        0 => "C",
        1 => "C#",
        2 => "D",
        3 => "D#",
        4 => "E",
        5 => "F",
        6 => "F#",
        7 => "G",
        8 => "G#",
        9 => "A",
        10 => "A#",
        _ => "B",
    };
    proof {
        reveal_strlit("C");
        reveal_strlit("C#");
        reveal_strlit("D");
        reveal_strlit("D#");
        reveal_strlit("E");
        reveal_strlit("F");
        reveal_strlit("F#");
        reveal_strlit("G");
        reveal_strlit("G#");
        reveal_strlit("A");
        reveal_strlit("A#");
        reveal_strlit("B");
        assert(name@ =~= note_names()[pc as int]);
    }
    name
}

/// The name of MIDI note `midi`, such as `A4` for 69 and `C-1` for 0.
pub fn note_name(midi: i32) -> (name: String)
    ensures
        name@ == note_name_spec(midi as int),
{
    let x: u64 = (midi as i64 + 2_147_483_652) as u64;
    let pc = x % 12;
    let octave: i64 = (x / 12) as i64 - 178_956_971 - 1;
    assert(pc as int == (midi as int) % 12);
    assert(octave as int == (midi as int) / 12 - 1);
    let mut name = String::new();
    name.append(pitch_class_name(pc));
    append_decimal(&mut name, octave);
    name
}

proof fn lemma_digits_start(n: nat)
    ensures
        digits(n).len() >= 1,
        digits(n)[0] != '#',
    decreases n,
{
    if n >= 10 {
        lemma_digits_start(n / 10);
    } else {
        assert(digit_char(n as int) != '#');
    }
}

proof fn lemma_decimal_start(n: int)
    ensures
        decimal(n).len() >= 1,
        decimal(n)[0] != '#',
{
    if n < 0 {
        lemma_digits_start((-n) as nat);
    } else {
        lemma_digits_start(n as nat);
    }
}

/// The musical alphabet after letter `c`: `A` to `G`, then `A` again.
pub open spec fn next_letter(c: char) -> int {
    (c as int - 'A' as int + 1) % 7 + 'A' as int
}

/// Note names walk the chromatic scale. Every name starts with a letter
/// from `A` to `G`. Going up a semitone from a natural either gives the same
/// letter with a sharp, or, after `E` and `B` only, the next letter of the
/// musical alphabet; going up from a sharp gives the next letter, natural.
/// Key 69 is an `A`, natural.
pub proof fn lemma_note_name_steps(m: int)
    ensures
        ({
            let a = note_name_spec(m);
            let b = note_name_spec(m + 1);
            &&& a.len() >= 2 && b.len() >= 2
            &&& 'A' <= a[0] <= 'G'
            &&& a[1] != '#' && b[1] == '#' ==> b[0] == a[0] && a[0] != 'E' && a[0] != 'B'
            &&& a[1] != '#' && b[1] != '#' ==> (a[0] == 'E' || a[0] == 'B') && b[0] as int == next_letter(a[0])
            &&& a[1] == '#' ==> b[1] != '#' && b[0] as int == next_letter(a[0])
        }),
        note_name_spec(69)[0] == 'A',
        note_name_spec(69)[1] != '#',
{
    lemma_decimal_start(m / 12 - 1);
    lemma_decimal_start((m + 1) / 12 - 1);
    lemma_decimal_start(69int / 12 - 1);
    let pc = m % 12;
    let names = note_names();
    assert(names[0] =~= seq!['C']);
    assert(names[1] =~= seq!['C', '#']);
    assert(names[2] =~= seq!['D']);
    assert(names[3] =~= seq!['D', '#']);
    assert(names[4] =~= seq!['E']);
    assert(names[5] =~= seq!['F']);
    assert(names[6] =~= seq!['F', '#']);
    assert(names[7] =~= seq!['G']);
    assert(names[8] =~= seq!['G', '#']);
    assert(names[9] =~= seq!['A']);
    assert(names[10] =~= seq!['A', '#']);
    assert(names[11] =~= seq!['B']);
    if pc == 11 {
        assert((m + 1) % 12 == 0);
    } else {
        assert((m + 1) % 12 == pc + 1);
    }
}

/// The sixteen instrument families of General MIDI, eight programs each.
pub open spec fn gm_families() -> Seq<Seq<char>> {
    seq![
        "Piano"@,
        "ChromPerc"@,
        "Organ"@,
        "Guitar"@,
        "Bass"@,
        "Strings"@,
        "Ensemble"@,
        "Brass"@,
        "Reed"@,
        "Pipe"@,
        "SynthLead"@,
        "SynthPad"@,
        "SynthFX"@,
        "Ethnic"@,
        "Percussive"@,
        "SoundFX"@,
    ]
}

/// A program shown by its family and its number, as in `Piano(0)`.
pub open spec fn program_label(p: u8) -> Seq<char> {
    gm_families()[(p / 8) as int] + seq!['('] + digits(p as nat) + seq![')']
}

/// The labels of `programs`, separated by commas.
pub open spec fn instrument_label_spec(programs: Seq<u8>) -> Seq<char>
    decreases programs.len(),
{
    if programs.len() == 0 {
        Seq::empty()
    } else if programs.len() == 1 {
        program_label(programs[0])
    } else {
        instrument_label_spec(programs.drop_last()) + seq![','] + program_label(programs.last())
    }
}

fn family_name(f: u8) -> (name: &'static str)
    requires
        f < 16,
    ensures
        name@ == gm_families()[f as int],
{
    let table: [&str; 16] = [
        "Piano",
        "ChromPerc",
        "Organ",
        "Guitar",
        "Bass",
        "Strings",
        "Ensemble",
        "Brass",
        "Reed",
        "Pipe",
        "SynthLead",
        "SynthPad",
        "SynthFX",
        "Ethnic",
        "Percussive",
        "SoundFX",
    ];
    proof {
        assert(table@.map_values(|w: &str| w@) =~= gm_families());
    }
    table[f as usize]
}

/// The instruments that `programs` select, as `Family(program)` labels
/// separated by commas.
pub fn instrument_label(programs: &[u8]) -> (label: String)
    requires
        forall|i: int| 0 <= i < programs@.len() ==> #[trigger] programs@[i] < 128,
    ensures
        label@ == instrument_label_spec(programs@),
{
    let mut label = String::new();
    for i in 0..programs.len()
        invariant
            forall|k: int| 0 <= k < programs@.len() ==> #[trigger] programs@[k] < 128,
            label@ == instrument_label_spec(programs@.take(i as int)),
    {
        let p = programs[i];
        let ghost before = label@;
        if i > 0 {
            label.append(",");
        }
        label.append(family_name(p / 8));
        label.append("(");
        append_digits(&mut label, p as u64);
        label.append(")");
        proof {
            reveal_strlit("(");
            reveal_strlit(")");
            reveal_strlit(",");
            let t = programs@.take(i + 1);
            assert(t.drop_last() =~= programs@.take(i as int));
            assert(t.last() == p);
            if i == 0 {
                assert(label@ =~= program_label(p));
            } else {
                assert(label@ =~= before + seq![','] + program_label(p));
            }
        }
    }
    assert(programs@.take(programs@.len() as int) =~= programs@);
    label
}

} // verus!
