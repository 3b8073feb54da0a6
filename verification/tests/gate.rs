use ip_core::config::GateThresholds;
use ip_core::frame::{NoteFrame, NoteInstance};
use ip_core::gate::Gate;
use ip_core::note::{NoteName, PitchClass};
use std::time::Duration;

const D5_HZ: f64 = 587.33;
const A4_HZ: f64 = 440.0;
const CLARITY_THRESHOLD: f64 = 0.9;

/// The floating-point step in front of gating: a frame below the clarity
/// threshold ends the run like silence; any other is named by its nearest
/// equal-tempered note relative to A4 = 440 Hz.
fn push_frame(gate: &mut Gate<f64>, hz: f64, confidence: f64, ts_ms: u64) -> Option<NoteInstance<f64>> {
    if confidence < CLARITY_THRESHOLD {
        return gate.push_silence();
    }
    let semitones_from_a4 = 12.0 * (hz / 440.0).log2();
    let nearest = semitones_from_a4.round() as i32;
    let cents = (semitones_from_a4 - nearest as f64) * 100.0;
    gate.push(NoteFrame {
        note: NoteName::from_semitones_above_a4(nearest),
        cents,
        timestamp_nanos: Duration::from_millis(ts_ms).as_nanos(),
    })
}

fn new_gate() -> Gate<f64> {
    Gate::new(GateThresholds::default())
}

#[test]
fn rejects_run_shorter_than_ornament_threshold() {
    let mut gate = new_gate();
    // 50ms run: a cut or tap, not a sustained note.
    for ts in [0, 10, 20, 30, 40, 50] {
        assert!(push_frame(&mut gate, D5_HZ, 0.9, ts).is_none());
    }
    // Low-confidence frame ends the run; still must not surface it.
    assert!(push_frame(&mut gate, D5_HZ, 0.1, 60).is_none());
    assert!(gate.flush().is_none());
}

#[test]
fn trims_transient_and_tail_from_sustained_note() {
    let mut gate = new_gate();
    let mut result = None;

    for ts_ms in (0..=300).step_by(10) {
        let cents = if ts_ms < 50 {
            40.0 // attack transient, should be trimmed
        } else if ts_ms > 250 {
            -40.0 // phrase-end tail, should be trimmed
        } else {
            5.0 // steady body of the note
        };
        let hz = A4_HZ * 2f64.powf(cents / 1200.0);
        if let Some(instance) = push_frame(&mut gate, hz, 0.9, ts_ms) {
            result = Some(instance);
        }
    }
    result = gate.flush().or(result);

    let instance = result.expect("sustained note should survive gating");
    assert_eq!(instance.note.pitch_class, PitchClass::A);
    assert_eq!(instance.note.octave, 4);
    assert_eq!(instance.duration_nanos, Duration::from_millis(300).as_nanos());
    assert!(!instance.cents_samples.is_empty());
    for cents in instance.cents_samples {
        assert!((cents - 5.0).abs() < 1.0, "transient/tail sample leaked through: {cents}");
    }
}

#[test]
fn note_change_finalizes_previous_run() {
    let mut gate = new_gate();
    for ts in [0, 50, 100, 150] {
        assert!(push_frame(&mut gate, D5_HZ, 0.9, ts).is_none());
    }
    // A different pitch class closes out the D5 run.
    let finished = push_frame(&mut gate, A4_HZ, 0.9, 160);
    let instance = finished.expect("note change should finalize the prior run");
    assert_eq!(instance.note.pitch_class, PitchClass::D);
    assert_eq!(instance.note.octave, 5);
}

#[test]
fn low_confidence_frames_never_start_a_run() {
    let mut gate = new_gate();
    for ts in [0, 10, 20, 30] {
        assert!(push_frame(&mut gate, D5_HZ, 0.2, ts).is_none());
    }
    assert!(gate.flush().is_none());
}

#[test]
fn silence_ends_a_running_note_like_low_confidence_does() {
    let mut gate = new_gate();
    for ts in [0, 50, 100, 150] {
        assert!(push_frame(&mut gate, D5_HZ, 0.9, ts).is_none());
    }
    let instance = gate.push_silence().expect("silence should close out the run");
    assert_eq!(instance.note.pitch_class, PitchClass::D);
    assert_eq!(instance.note.octave, 5);
}

#[test]
fn silence_with_nothing_running_is_a_no_op() {
    let mut gate = new_gate();
    assert!(gate.push_silence().is_none());
}

#[test]
fn exact_boundary_duration_is_accepted() {
    let mut gate = new_gate();
    // 100ms exactly meets the >= min_note_duration bar.
    assert!(push_frame(&mut gate, A4_HZ, 0.9, 0).is_none());
    assert!(push_frame(&mut gate, A4_HZ, 0.9, 50).is_none());
    assert!(push_frame(&mut gate, A4_HZ, 0.9, 100).is_none());

    let instance = gate.flush().expect("100ms run should be accepted, not rejected");
    assert_eq!(instance.duration_nanos, Duration::from_millis(100).as_nanos());
    // transient_trim=50, tail_trim=50 on a 100ms note leaves only the t=50 sample.
    assert_eq!(instance.cents_samples.len(), 1);
}

#[test]
fn default_thresholds_are_100ms_and_50ms() {
    let t = GateThresholds::default();
    assert_eq!(t.min_note_duration_nanos, 100_000_000);
    assert_eq!(t.transient_trim_nanos, 50_000_000);
    assert_eq!(t.tail_trim_nanos, 50_000_000);
}

fn frame(note: NoteName, cents: i32, ts_ms: u64) -> NoteFrame<i32> {
    NoteFrame { note, cents, timestamp_nanos: Duration::from_millis(ts_ms).as_nanos() }
}

#[test]
fn a_second_flush_yields_nothing() {
    let a4 = NoteName { pitch_class: PitchClass::A, octave: 4 };
    let mut gate = Gate::new(GateThresholds::default());
    for ts in [0, 60, 120, 180] {
        assert!(gate.push(frame(a4, ts as i32, ts)).is_none());
    }
    let instance = gate.flush().unwrap();
    // Only the frames inside [50 ms, 130 ms] survive trimming.
    assert_eq!(instance.cents_samples, vec![60, 120]);
    assert_eq!(instance.start_nanos, 0);
    assert!(gate.flush().is_none());
}

#[test]
fn a_run_with_every_sample_trimmed_away_yields_nothing() {
    let a4 = NoteName { pitch_class: PitchClass::A, octave: 4 };
    let thresholds = GateThresholds {
        min_note_duration_nanos: 100_000_000,
        transient_trim_nanos: 80_000_000,
        tail_trim_nanos: 80_000_000,
    };
    let mut gate = Gate::new(thresholds);
    assert!(gate.push(frame(a4, 1, 0)).is_none());
    assert!(gate.push(frame(a4, 2, 150)).is_none());
    // Kept span is [80 ms, 70 ms]: empty.
    assert!(gate.flush().is_none());
}

#[test]
fn a_run_stamped_backwards_lasts_zero() {
    let a4 = NoteName { pitch_class: PitchClass::A, octave: 4 };
    let thresholds = GateThresholds { min_note_duration_nanos: 0, transient_trim_nanos: 0, tail_trim_nanos: 0 };
    let mut gate = Gate::new(thresholds);
    assert!(gate.push(frame(a4, 7, 500)).is_none());
    assert!(gate.push(frame(a4, 8, 400)).is_none());
    let instance = gate.flush().unwrap();
    assert_eq!(instance.duration_nanos, 0);
    // Only the first frame lies within [500 ms, 500 ms].
    assert_eq!(instance.cents_samples, vec![7]);
}

#[test]
fn a_run_of_detections_matches_pushing_them_one_by_one() {
    let a4 = NoteName { pitch_class: PitchClass::A, octave: 4 };
    let d5 = NoteName { pitch_class: PitchClass::D, octave: 5 };
    let detections = vec![
        Some(frame(a4, 1, 0)),
        Some(frame(a4, 2, 60)),
        Some(frame(a4, 3, 120)),
        Some(frame(a4, 4, 180)),
        None,
        Some(frame(d5, 5, 200)),
        Some(frame(d5, 6, 300)),
        Some(frame(a4, 7, 310)),
    ];

    let mut stepwise = Gate::new(GateThresholds::default());
    let mut expected = Vec::new();
    for d in detections.clone() {
        let closed = match d {
            Some(f) => stepwise.push(f),
            None => stepwise.push_silence(),
        };
        expected.extend(closed);
    }

    let mut batched = Gate::new(GateThresholds::default());
    let finished = batched.push_detections(detections);
    assert_eq!(finished, expected);
    // The A4 run closed by silence keeps the frames in [50 ms, 130 ms]; the
    // D5 run lasts 100 ms and keeps only its frame at 250 ms, none.
    assert_eq!(finished.len(), 1);
    assert_eq!(finished[0].cents_samples, vec![2, 3]);
    assert_eq!(batched.flush(), stepwise.flush());
}

#[test]
fn later_frames_of_the_running_note_stretch_it() {
    let a4 = NoteName { pitch_class: PitchClass::A, octave: 4 };
    let mut gate = Gate::new(GateThresholds::default());
    for ts in [20, 100, 240, 400] {
        assert!(gate.push(frame(a4, 0, ts)).is_none());
    }
    let instance = gate.flush().unwrap();
    assert_eq!(instance.note, a4);
    assert_eq!(instance.start_nanos, 20_000_000);
    assert_eq!(instance.duration_nanos, 380_000_000);
}
