//! Note names: pitch class plus octave, numbered from C0.

use vstd::prelude::*;

verus! {

/// The twelve equal-tempered pitch classes, in ascending order from C.
#[derive(Debug, Clone, Copy, PartialEq, Eq, Hash, Structural)]
pub enum PitchClass {
    C,
    CSharp,
    D,
    DSharp,
    E,
    F,
    FSharp,
    G,
    GSharp,
    A,
    ASharp,
    B,
}

/// Position of a pitch class within its octave: C is 0, B is 11.
pub open spec fn pitch_index(pc: PitchClass) -> int {
    match pc {
        PitchClass::C => 0,
        PitchClass::CSharp => 1,
        PitchClass::D => 2,
        PitchClass::DSharp => 3,
        PitchClass::E => 4,
        PitchClass::F => 5,
        PitchClass::FSharp => 6,
        PitchClass::G => 7,
        PitchClass::GSharp => 8,
        PitchClass::A => 9,
        PitchClass::ASharp => 10,
        PitchClass::B => 11,
    }
}

impl PitchClass {
    /// The pitch class of a semitone count, taken modulo 12 (Euclidean, so
    /// negative counts wrap round to the top of the octave).
    pub fn from_semitone(semitone: i32) -> (pc: PitchClass)
        ensures
            pitch_index(pc) == semitone as int % 12,
            semitone as int % 12 == 0 ==> pc == PitchClass::C,
            semitone as int % 12 == 1 ==> pc == PitchClass::CSharp,
            semitone as int % 12 == 2 ==> pc == PitchClass::D,
            semitone as int % 12 == 3 ==> pc == PitchClass::DSharp,
            semitone as int % 12 == 4 ==> pc == PitchClass::E,
            semitone as int % 12 == 5 ==> pc == PitchClass::F,
            semitone as int % 12 == 6 ==> pc == PitchClass::FSharp,
            semitone as int % 12 == 7 ==> pc == PitchClass::G,
            semitone as int % 12 == 8 ==> pc == PitchClass::GSharp,
            semitone as int % 12 == 9 ==> pc == PitchClass::A,
            semitone as int % 12 == 10 ==> pc == PitchClass::ASharp,
            semitone as int % 12 == 11 ==> pc == PitchClass::B,
    {
        let r: i32 = semitone.checked_rem_euclid(12).unwrap();
        if r == 0 {
            PitchClass::C
        } else if r == 1 {
            PitchClass::CSharp
        } else if r == 2 {
            PitchClass::D
        } else if r == 3 {
            PitchClass::DSharp
        } else if r == 4 {
            PitchClass::E
        } else if r == 5 {
            PitchClass::F
        } else if r == 6 {
            PitchClass::FSharp
        } else if r == 7 {
            PitchClass::G
        } else if r == 8 {
            PitchClass::GSharp
        } else if r == 9 {
            PitchClass::A
        } else if r == 10 {
            PitchClass::ASharp
        } else {
            PitchClass::B
        }
    }
}

/// A note: pitch class and octave (scientific pitch notation, so A4 is the
/// usual tuning reference and C4 is middle C).
#[derive(Debug, Clone, Copy, PartialEq, Eq, Hash, Structural)]
pub struct NoteName {
    pub pitch_class: PitchClass,
    pub octave: i32,
}

/// Semitones above C0 of a note.
pub open spec fn semitones_from_c0(note: NoteName) -> int {
    note.octave * 12 + pitch_index(note.pitch_class)
}

/// A4 lies 57 semitones above C0 (four octaves of 12, plus A's place 9).
pub open spec fn a4_offset_from_c0() -> int {
    57
}


impl NoteName {
    /// The note `semitones` equal-tempered semitones above A4 (below, when
    /// negative): the octave is the Euclidean quotient, and the pitch class
    /// the remainder, of its distance from C0 by 12.
    pub fn from_semitones_above_a4(semitones: i32) -> (note: NoteName)
        requires
            semitones <= i32::MAX - 57,
        ensures
            semitones_from_c0(note) == semitones + a4_offset_from_c0(),
            note.octave == (semitones + 57) / 12,
            pitch_index(note.pitch_class) == (semitones + 57) % 12,
            (semitones + 57) % 12 == 0 ==> note.pitch_class == PitchClass::C,
            (semitones + 57) % 12 == 1 ==> note.pitch_class == PitchClass::CSharp,
            (semitones + 57) % 12 == 2 ==> note.pitch_class == PitchClass::D,
            (semitones + 57) % 12 == 3 ==> note.pitch_class == PitchClass::DSharp,
            (semitones + 57) % 12 == 4 ==> note.pitch_class == PitchClass::E,
            (semitones + 57) % 12 == 5 ==> note.pitch_class == PitchClass::F,
            (semitones + 57) % 12 == 6 ==> note.pitch_class == PitchClass::FSharp,
            (semitones + 57) % 12 == 7 ==> note.pitch_class == PitchClass::G,
            (semitones + 57) % 12 == 8 ==> note.pitch_class == PitchClass::GSharp,
            (semitones + 57) % 12 == 9 ==> note.pitch_class == PitchClass::A,
            (semitones + 57) % 12 == 10 ==> note.pitch_class == PitchClass::ASharp,
            (semitones + 57) % 12 == 11 ==> note.pitch_class == PitchClass::B,
    {
        let from_c0: i32 = semitones + 9 + 4 * 12;
        let octave: i32 = from_c0.checked_div_euclid(12).unwrap();
        let pitch_class = PitchClass::from_semitone(from_c0);
        NoteName { pitch_class, octave }
    }
}

/// Every note is reached from exactly one semitone count: two counts name
/// the same note only if they are equal, and the note's distance above A4 is
/// the count it was made from.
pub proof fn lemma_note_naming_is_one_to_one(a: int, b: int, na: NoteName, nb: NoteName)
    requires
        semitones_from_c0(na) == a + a4_offset_from_c0(),
        semitones_from_c0(nb) == b + a4_offset_from_c0(),
    ensures
        na == nb <==> a == b,
{
    if a == b {
        assert(0 <= pitch_index(na.pitch_class) < 12);
        assert(0 <= pitch_index(nb.pitch_class) < 12);
        assert(na.octave == nb.octave) by (nonlinear_arith)
            requires
                na.octave * 12 + pitch_index(na.pitch_class) == nb.octave * 12 + pitch_index(nb.pitch_class),
                0 <= pitch_index(na.pitch_class) < 12,
                0 <= pitch_index(nb.pitch_class) < 12,
        ;
        assert(na.pitch_class == nb.pitch_class);
    }
}

/// Twelve semitones up is the same pitch class one octave higher.
pub proof fn lemma_octave_shift(s: int)
    ensures
        (s + 12 + 57) / 12 == (s + 57) / 12 + 1,
        (s + 12 + 57) % 12 == (s + 57) % 12,
{
    assert((s + 12 + 57) / 12 == (s + 57) / 12 + 1) by (nonlinear_arith);
    assert((s + 12 + 57) % 12 == (s + 57) % 12) by (nonlinear_arith);
}


/// How a pitch class is written: its letter, then `#` for a sharp.
pub open spec fn pitch_label(pc: PitchClass) -> Seq<char> {
    match pc {
        PitchClass::C => seq!['C'],
        PitchClass::CSharp => seq!['C', '#'],
        PitchClass::D => seq!['D'],
        PitchClass::DSharp => seq!['D', '#'],
        PitchClass::E => seq!['E'],
        PitchClass::F => seq!['F'],
        PitchClass::FSharp => seq!['F', '#'],
        PitchClass::G => seq!['G'],
        PitchClass::GSharp => seq!['G', '#'],
        PitchClass::A => seq!['A'],
        PitchClass::ASharp => seq!['A', '#'],
        PitchClass::B => seq!['B'],
    }
}

/// The decimal digit character for `d` (taken as 9 from 9 on).
pub open spec fn digit_char(d: int) -> char {
    if d == 0 {
        '0'
    } else if d == 1 {
        '1'
    } else if d == 2 {
        '2'
    } else if d == 3 {
        '3'
    } else if d == 4 {
        '4'
    } else if d == 5 {
        '5'
    } else if d == 6 {
        '6'
    } else if d == 7 {
        '7'
    } else if d == 8 {
        '8'
    } else {
        '9'
    }
}

/// Decimal notation of a natural number, most significant digit first, with
/// no leading zeros (zero itself is "0").
pub open spec fn decimal(n: nat) -> Seq<char>
    decreases n,
{
    if n < 10 {
        seq![digit_char(n as int)]
    } else {
        decimal(n / 10) + seq![digit_char((n % 10) as int)]
    }
}

/// Decimal notation of an integer, with a leading `-` when negative.
pub open spec fn signed_decimal(i: int) -> Seq<char> {
    if i < 0 {
        seq!['-'] + decimal((-i) as nat)
    } else {
        decimal(i as nat)
    }
}

/// How a note is written: pitch label followed by the octave number, as in
/// "A4", "F#5" or "C-1".
pub open spec fn note_label(note: NoteName) -> Seq<char> {
    pitch_label(note.pitch_class) + signed_decimal(note.octave as int)
}

fn pitch_label_str(pc: PitchClass) -> (s: &'static str)
    ensures
        s@ == pitch_label(pc),
{
    match pc {
        PitchClass::C => {
            proof {
                reveal_strlit("C");
            }
            "C"
        },
        PitchClass::CSharp => {
            proof {
                reveal_strlit("C#");
            }
            "C#"
        },
        PitchClass::D => {
            proof {
                reveal_strlit("D");
            }
            "D"
        },
        PitchClass::DSharp => {
            proof {
                reveal_strlit("D#");
            }
            "D#"
        },
        PitchClass::E => {
            proof {
                reveal_strlit("E");
            }
            "E"
        },
        PitchClass::F => {
            proof {
                reveal_strlit("F");
            }
            "F"
        },
        PitchClass::FSharp => {
            proof {
                reveal_strlit("F#");
            }
            "F#"
        },
        PitchClass::G => {
            proof {
                reveal_strlit("G");
            }
            "G"
        },
        PitchClass::GSharp => {
            proof {
                reveal_strlit("G#");
            }
            "G#"
        },
        PitchClass::A => {
            proof {
                reveal_strlit("A");
            }
            "A"
        },
        PitchClass::ASharp => {
            proof {
                reveal_strlit("A#");
            }
            "A#"
        },
        PitchClass::B => {
            proof {
                reveal_strlit("B");
            }
            "B"
        },
    }
}

fn digit_str(d: u64) -> (s: &'static str)
    requires
        d < 10,
    ensures
        s@ == seq![digit_char(d as int)],
{
    if d == 0 {
        proof {
            reveal_strlit("0");
        }
        "0"
    } else if d == 1 {
        proof {
            reveal_strlit("1");
        }
        "1"
    } else if d == 2 {
        proof {
            reveal_strlit("2");
        }
        "2"
    } else if d == 3 {
        proof {
            reveal_strlit("3");
        }
        "3"
    } else if d == 4 {
        proof {
            reveal_strlit("4");
        }
        "4"
    } else if d == 5 {
        proof {
            reveal_strlit("5");
        }
        "5"
    } else if d == 6 {
        proof {
            reveal_strlit("6");
        }
        "6"
    } else if d == 7 {
        proof {
            reveal_strlit("7");
        }
        "7"
    } else if d == 8 {
        proof {
            reveal_strlit("8");
        }
        "8"
    } else {
        proof {
            reveal_strlit("9");
        }
        "9"
    }
}

fn append_decimal(out: &mut String, n: u64)
    ensures
        final(out)@ == old(out)@ + decimal(n as nat),
    decreases n,
{
    if n >= 10 {
        append_decimal(out, n / 10);
        out.append(digit_str(n % 10));
        assert(final(out)@ =~= old(out)@ + decimal(n as nat));
    } else {
        out.append(digit_str(n));
    }
}

/// Writes a note the way reports show it: "A4", "F#5", "C-1".
pub fn format_note_name(note: NoteName) -> (s: String)
    ensures
        s@ == note_label(note),
{
    let mut s = String::from_str(pitch_label_str(note.pitch_class));
    if note.octave < 0 {
        proof {
            reveal_strlit("-");
        }
        s.append("-");
        let magnitude: i64 = -(note.octave as i64);
        append_decimal(&mut s, magnitude as u64);
    } else {
        append_decimal(&mut s, note.octave as u64);
    }
    assert(s@ =~= note_label(note));
    s
}

proof fn lemma_pitch_label_shape(pc: PitchClass)
    ensures
        1 <= pitch_label(pc).len() <= 2,
        pitch_label(pc)[0] != '#' && pitch_label(pc)[0] != '-',
        pitch_label(pc).len() == 2 ==> pitch_label(pc)[1] == '#',
{
}

proof fn lemma_pitch_label_one_to_one(a: PitchClass, b: PitchClass)
    ensures
        pitch_label(a) == pitch_label(b) ==> a == b,
{
    if pitch_label(a) == pitch_label(b) {
        assert(pitch_label(a)[0] == pitch_label(b)[0]);
        assert(pitch_label(a).len() == pitch_label(b).len());
    }
}

proof fn lemma_decimal_shape(n: nat)
    ensures
        decimal(n).len() >= 1,
        n >= 10 ==> decimal(n).len() >= 2,
        decimal(n)[0] != '#' && decimal(n)[0] != '-',
    decreases n,
{
    if n >= 10 {
        lemma_decimal_shape(n / 10);
        assert(decimal(n)[0] == decimal(n / 10)[0]);
    }
}

proof fn lemma_decimal_one_to_one(a: nat, b: nat)
    ensures
        decimal(a) == decimal(b) ==> a == b,
    decreases a,
{
    if decimal(a) == decimal(b) {
        lemma_decimal_shape(a);
        lemma_decimal_shape(b);
        if a >= 10 && b >= 10 {
            let da = decimal(a);
            assert(da.drop_last() =~= decimal(a / 10));
            assert(decimal(b).drop_last() =~= decimal(b / 10));
            assert(da.last() == digit_char((a % 10) as int));
            assert(decimal(b).last() == digit_char((b % 10) as int));
            lemma_decimal_one_to_one(a / 10, b / 10);
        } else if a < 10 && b < 10 {
            assert(decimal(a)[0] == decimal(b)[0]);
        }
    }
}

proof fn lemma_signed_decimal_one_to_one(i: int, j: int)
    ensures
        signed_decimal(i).len() >= 1,
        signed_decimal(i)[0] != '#',
        signed_decimal(i) == signed_decimal(j) ==> i == j,
{
    lemma_decimal_shape((if i < 0 { -i } else { i }) as nat);
    lemma_decimal_shape((if j < 0 { -j } else { j }) as nat);
    if signed_decimal(i) == signed_decimal(j) {
        if i < 0 && j < 0 {
            assert(signed_decimal(i).drop_first() =~= decimal((-i) as nat));
            assert(signed_decimal(j).drop_first() =~= decimal((-j) as nat));
            lemma_decimal_one_to_one((-i) as nat, (-j) as nat);
        } else if i >= 0 && j >= 0 {
            lemma_decimal_one_to_one(i as nat, j as nat);
        } else {
            assert(signed_decimal(i)[0] == signed_decimal(j)[0]);
        }
    }
}

/// Note labels are one to one: two notes with the same label are the same
/// note. A pitch label is a letter, then `#` for a sharp, and an octave
/// number never begins with `#`, so a label splits back into its two parts.
pub proof fn lemma_note_labels_are_one_to_one(a: NoteName, b: NoteName)
    ensures
        note_label(a) == note_label(b) ==> a == b,
{
    if note_label(a) == note_label(b) {
        let pa = pitch_label(a.pitch_class);
        let pb = pitch_label(b.pitch_class);
        let sa = signed_decimal(a.octave as int);
        let sb = signed_decimal(b.octave as int);
        lemma_pitch_label_shape(a.pitch_class);
        lemma_pitch_label_shape(b.pitch_class);
        lemma_signed_decimal_one_to_one(a.octave as int, b.octave as int);
        lemma_signed_decimal_one_to_one(b.octave as int, a.octave as int);
        let label = note_label(a);
        if pa.len() != pb.len() {
            if pa.len() == 2 {
                assert(label[1] == pa[1]);
                assert(note_label(b)[1] == sb[0]);
            } else {
                assert(label[1] == sa[0]);
                assert(note_label(b)[1] == pb[1]);
            }
        }
        assert(pa =~= label.take(pa.len() as int));
        assert(pb =~= note_label(b).take(pb.len() as int));
        assert(sa =~= label.skip(pa.len() as int));
        assert(sb =~= note_label(b).skip(pb.len() as int));
        lemma_pitch_label_one_to_one(a.pitch_class, b.pitch_class);
    }
}

/// The pitch classes in ascending order from C, a semitone apart:
/// C, C#, D, D#, E, F, F#, G, G#, A, A#, B.
pub proof fn lemma_pitch_class_order()
    ensures
        pitch_index(PitchClass::C) == 0,
        pitch_index(PitchClass::CSharp) == 1,
        pitch_index(PitchClass::D) == 2,
        pitch_index(PitchClass::DSharp) == 3,
        pitch_index(PitchClass::E) == 4,
        pitch_index(PitchClass::F) == 5,
        pitch_index(PitchClass::FSharp) == 6,
        pitch_index(PitchClass::G) == 7,
        pitch_index(PitchClass::GSharp) == 8,
        pitch_index(PitchClass::A) == 9,
        pitch_index(PitchClass::ASharp) == 10,
        pitch_index(PitchClass::B) == 11,
{
}

/// How each pitch class is written: its own letter, then `#` for the sharps.
pub proof fn lemma_pitch_class_letters()
    ensures
        pitch_label(PitchClass::C) == seq!['C'],
        pitch_label(PitchClass::CSharp) == seq!['C', '#'],
        pitch_label(PitchClass::D) == seq!['D'],
        pitch_label(PitchClass::DSharp) == seq!['D', '#'],
        pitch_label(PitchClass::E) == seq!['E'],
        pitch_label(PitchClass::F) == seq!['F'],
        pitch_label(PitchClass::FSharp) == seq!['F', '#'],
        pitch_label(PitchClass::G) == seq!['G'],
        pitch_label(PitchClass::GSharp) == seq!['G', '#'],
        pitch_label(PitchClass::A) == seq!['A'],
        pitch_label(PitchClass::ASharp) == seq!['A', '#'],
        pitch_label(PitchClass::B) == seq!['B'],
{
}

/// The value of a decimal digit character, or -1 for any other character.
pub open spec fn digit_value(c: char) -> int {
    if c == '0' {
        0
    } else if c == '1' {
        1
    } else if c == '2' {
        2
    } else if c == '3' {
        3
    } else if c == '4' {
        4
    } else if c == '5' {
        5
    } else if c == '6' {
        6
    } else if c == '7' {
        7
    } else if c == '8' {
        8
    } else if c == '9' {
        9
    } else {
        -1
    }
}

/// The number a run of decimal digits, most significant first, stands for.
pub open spec fn decimal_value(s: Seq<char>) -> int
    decreases s.len(),
{
    if s.len() == 0 {
        0
    } else {
        decimal_value(s.drop_last()) * 10 + digit_value(s.last())
    }
}

/// Octave numbers are written in ordinary decimal: the digit characters are
/// '0' to '9', every character of `decimal(n)` is one of them, they read
/// back as `n`, and there is no leading zero.
pub proof fn lemma_decimal_reads_back(n: nat)
    ensures
        digit_char(0) == '0',
        digit_char(1) == '1',
        digit_char(2) == '2',
        digit_char(3) == '3',
        digit_char(4) == '4',
        digit_char(5) == '5',
        digit_char(6) == '6',
        digit_char(7) == '7',
        digit_char(8) == '8',
        digit_char(9) == '9',
        forall|i: int| 0 <= i < decimal(n).len() ==> 0 <= #[trigger] digit_value(decimal(n)[i]) <= 9,
        decimal_value(decimal(n)) == n,
        n > 0 ==> decimal(n)[0] != '0',
        decimal(n).len() >= 1,
    decreases n,
{
    if n >= 10 {
        lemma_decimal_reads_back(n / 10);
        let d = decimal(n);
        assert(d.drop_last() =~= decimal(n / 10));
        assert(d[0] == decimal(n / 10)[0]);
        assert forall|i: int| 0 <= i < d.len() implies 0 <= #[trigger] digit_value(d[i]) <= 9 by {
            if i < d.len() - 1 {
                assert(d[i] == decimal(n / 10)[i]);
            }
        }
        assert(d.last() == digit_char((n % 10) as int));
        assert(digit_value(digit_char((n % 10) as int)) == n % 10);
        assert((n / 10) * 10 + n % 10 == n) by (nonlinear_arith);
        assert(decimal_value(d) == decimal_value(d.drop_last()) * 10 + digit_value(d.last()));
        assert(decimal_value(d) == (n / 10) * 10 + n % 10);
    } else {
        let d = decimal(n);
        assert(d.drop_last() =~= Seq::<char>::empty());
        assert(digit_value(digit_char(n as int)) == n);
        assert(decimal_value(d) == decimal_value(d.drop_last()) * 10 + digit_value(d.last()));
    }
}

/// A note's label is its pitch class's label followed by its octave in
/// decimal, with a leading '-' for octaves below zero.
pub proof fn lemma_note_label_parts(note: NoteName)
    ensures
        note_label(note).take(pitch_label(note.pitch_class).len() as int) == pitch_label(note.pitch_class),
        note.octave >= 0 ==> note_label(note).skip(pitch_label(note.pitch_class).len() as int) == decimal(
            note.octave as nat,
        ),
        note.octave < 0 ==> note_label(note).skip(pitch_label(note.pitch_class).len() as int) == seq!['-']
            + decimal((-note.octave) as nat),
{
    let p = pitch_label(note.pitch_class);
    assert(note_label(note).take(p.len() as int) =~= p);
    assert(note_label(note).skip(p.len() as int) =~= signed_decimal(note.octave as int));
}

} // verus!
