use ip_core::note::{format_note_name, NoteName, PitchClass};

/// The floating-point step in front of note naming: the nearest
/// equal-tempered semitone to `hz` relative to `reference_hz` at A4, and the
/// deviation from it in cents.
fn nearest_note(hz: f64, reference_hz: f64) -> (NoteName, f64) {
    let semitones_from_a4 = 12.0 * (hz / reference_hz).log2();
    let nearest_semitone = semitones_from_a4.round() as i32;
    let cents = (semitones_from_a4 - nearest_semitone as f64) * 100.0;
    (NoteName::from_semitones_above_a4(nearest_semitone), cents)
}

fn assert_close(a: f64, b: f64, tol: f64) {
    assert!((a - b).abs() < tol, "{a} not within {tol} of {b}");
}

#[test]
fn a4_is_exact() {
    let (note, cents) = nearest_note(440.0, 440.0);
    assert_eq!(note, NoteName { pitch_class: PitchClass::A, octave: 4 });
    assert_close(cents, 0.0, 1e-6);
}

#[test]
fn a3_one_octave_down() {
    let (note, cents) = nearest_note(220.0, 440.0);
    assert_eq!(note, NoteName { pitch_class: PitchClass::A, octave: 3 });
    assert_close(cents, 0.0, 1e-6);
}

#[test]
fn d5_flute_open_note() {
    // D5 at equal temperament from A440 is ~587.33 Hz.
    let (note, cents) = nearest_note(587.33, 440.0);
    assert_eq!(note, NoteName { pitch_class: PitchClass::D, octave: 5 });
    assert_close(cents, 0.0, 1.0);
}

#[test]
fn sharp_deviation_is_positive() {
    // 445 Hz is sharp of A4 (440 Hz) by roughly +19.6 cents.
    let (note, cents) = nearest_note(445.0, 440.0);
    assert_eq!(note, NoteName { pitch_class: PitchClass::A, octave: 4 });
    assert_close(cents, 19.56, 0.1);
}

#[test]
fn flat_deviation_is_negative() {
    let (note, cents) = nearest_note(435.0, 440.0);
    assert_eq!(note, NoteName { pitch_class: PitchClass::A, octave: 4 });
    assert!(cents < 0.0);
}

#[test]
fn respects_alternate_reference_pitch() {
    // With A=442, 442 Hz itself should read as dead-on A4.
    let (note, cents) = nearest_note(442.0, 442.0);
    assert_eq!(note, NoteName { pitch_class: PitchClass::A, octave: 4 });
    assert_close(cents, 0.0, 1e-6);
}

#[test]
fn octave_boundary_at_c() {
    // C5 is one semitone above B4.
    let (c5, _) = nearest_note(523.25, 440.0);
    assert_eq!(c5, NoteName { pitch_class: PitchClass::C, octave: 5 });

    let (b4, _) = nearest_note(493.88, 440.0);
    assert_eq!(b4, NoteName { pitch_class: PitchClass::B, octave: 4 });
}

#[test]
fn semitone_counts_map_to_notes() {
    assert_eq!(NoteName::from_semitones_above_a4(0), NoteName { pitch_class: PitchClass::A, octave: 4 });
    assert_eq!(NoteName::from_semitones_above_a4(3), NoteName { pitch_class: PitchClass::C, octave: 5 });
    assert_eq!(NoteName::from_semitones_above_a4(2), NoteName { pitch_class: PitchClass::B, octave: 4 });
    assert_eq!(NoteName::from_semitones_above_a4(-57), NoteName { pitch_class: PitchClass::C, octave: 0 });
    assert_eq!(NoteName::from_semitones_above_a4(-58), NoteName { pitch_class: PitchClass::B, octave: -1 });
    assert_eq!(NoteName::from_semitones_above_a4(12), NoteName { pitch_class: PitchClass::A, octave: 5 });
}

#[test]
fn pitch_class_wraps_below_zero() {
    assert_eq!(PitchClass::from_semitone(0), PitchClass::C);
    assert_eq!(PitchClass::from_semitone(11), PitchClass::B);
    assert_eq!(PitchClass::from_semitone(12), PitchClass::C);
    assert_eq!(PitchClass::from_semitone(-1), PitchClass::B);
    assert_eq!(PitchClass::from_semitone(-13), PitchClass::B);
    assert_eq!(PitchClass::from_semitone(i32::MIN), PitchClass::E);
}

#[test]
fn note_names_are_written_letter_sharp_octave() {
    assert_eq!(format_note_name(NoteName { pitch_class: PitchClass::A, octave: 4 }), "A4");
    assert_eq!(format_note_name(NoteName { pitch_class: PitchClass::FSharp, octave: 5 }), "F#5");
    assert_eq!(format_note_name(NoteName { pitch_class: PitchClass::C, octave: -1 }), "C-1");
    assert_eq!(format_note_name(NoteName { pitch_class: PitchClass::DSharp, octave: 10 }), "D#10");
    assert_eq!(format_note_name(NoteName { pitch_class: PitchClass::B, octave: 0 }), "B0");
    assert_eq!(
        format_note_name(NoteName { pitch_class: PitchClass::GSharp, octave: i32::MIN }),
        "G#-2147483648"
    );
    assert_eq!(
        format_note_name(NoteName { pitch_class: PitchClass::ASharp, octave: i32::MAX }),
        "A#2147483647"
    );
}
