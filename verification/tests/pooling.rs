use ip_core::aggregate::bin_by_note;
use ip_core::frame::NoteInstance;
use ip_core::note::{NoteName, PitchClass};
use ip_core::session::{CaptureSession, RollingWindowSession};

fn note(pitch_class: PitchClass, octave: i32) -> NoteName {
    NoteName { pitch_class, octave }
}

fn instance(n: NoteName, cents_samples: Vec<i64>) -> NoteInstance<i64> {
    NoteInstance { note: n, cents_samples, start_nanos: 0, duration_nanos: 200_000_000 }
}

fn starting_at(n: NoteName, start_ms: u128) -> NoteInstance<i64> {
    NoteInstance { note: n, cents_samples: vec![start_ms as i64], start_nanos: start_ms * 1_000_000, duration_nanos: 0 }
}

#[test]
fn instances_of_the_same_note_pool_into_one_bin() {
    let d5 = note(PitchClass::D, 5);
    let bins = bin_by_note(&[instance(d5, vec![0, 2]), instance(d5, vec![4, 6])]);
    assert_eq!(bins.len(), 1);
    assert_eq!(bins[0].note, d5);
    assert_eq!(bins[0].cents, vec![0, 2, 4, 6]);
}

#[test]
fn bins_follow_first_appearance_and_keep_sample_order() {
    let d5 = note(PitchClass::D, 5);
    let f5 = note(PitchClass::FSharp, 5);
    let d4 = note(PitchClass::D, 4);
    let bins = bin_by_note(&[
        instance(d5, vec![0; 100]),
        instance(f5, vec![30, 31]),
        instance(d5, vec![1]),
        instance(d4, vec![10; 5]),
        instance(f5, vec![32]),
    ]);
    let notes: Vec<NoteName> = bins.iter().map(|b| b.note).collect();
    assert_eq!(notes, vec![d5, f5, d4]);
    assert_eq!(bins[0].cents.len(), 101);
    assert_eq!(bins[0].cents[100], 1);
    assert_eq!(bins[1].cents, vec![30, 31, 32]);
    assert_eq!(bins[2].cents, vec![10; 5]);
    let total: usize = bins.iter().map(|b| b.cents.len()).sum();
    assert_eq!(total, 109);
}

#[test]
fn no_instances_no_bins() {
    assert!(bin_by_note::<i64>(&[]).is_empty());
}

#[test]
fn the_rolling_window_drops_notes_older_than_the_window() {
    let a4 = note(PitchClass::A, 4);
    let mut session = RollingWindowSession::new(1_000_000_000);
    session.push_instances(vec![starting_at(a4, 0), starting_at(a4, 400), starting_at(a4, 900)]);
    assert_eq!(session.instances().len(), 3);
    // A note at 1.5 s evicts everything that started before 0.5 s.
    session.push_instances(vec![starting_at(a4, 1500)]);
    let starts: Vec<u128> = session.instances().iter().map(|i| i.start_nanos).collect();
    assert_eq!(starts, vec![900_000_000, 1_500_000_000]);
}

#[test]
fn eviction_stops_at_the_first_recent_note() {
    let a4 = note(PitchClass::A, 4);
    let mut session = RollingWindowSession::new(100_000_000);
    // Out of order: the old note behind a recent one at the front stays.
    session.push_instances(vec![starting_at(a4, 900), starting_at(a4, 0)]);
    session.push_instances(vec![starting_at(a4, 950)]);
    let starts: Vec<u128> = session.instances().iter().map(|i| i.start_nanos).collect();
    assert_eq!(starts, vec![900_000_000, 0, 950_000_000]);
}

#[test]
fn early_notes_are_never_evicted_by_a_window_longer_than_the_session() {
    let a4 = note(PitchClass::A, 4);
    let mut session = RollingWindowSession::new(10_000_000_000);
    session.push_instances(vec![starting_at(a4, 0), starting_at(a4, 5000)]);
    assert_eq!(session.instances().len(), 2);
}

#[test]
fn a_capture_keeps_every_note_and_the_final_flush() {
    let a4 = note(PitchClass::A, 4);
    let mut capture = CaptureSession::new();
    capture.record(vec![starting_at(a4, 0)]);
    capture.record(vec![]);
    capture.record(vec![starting_at(a4, 300), starting_at(a4, 600)]);
    let all = capture.finish(Some(starting_at(a4, 900)));
    let starts: Vec<u128> = all.iter().map(|i| i.start_nanos / 1_000_000).collect();
    assert_eq!(starts, vec![0, 300, 600, 900]);

    let empty: CaptureSession<i64> = CaptureSession::new();
    assert!(empty.finish(None).is_empty());
}

#[test]
fn batches_of_notes_roll_the_same_as_one_batch() {
    let a4 = note(PitchClass::A, 4);
    let starts = [0u128, 200, 450, 700, 1300, 1350, 2600];
    let mut one = RollingWindowSession::new(800_000_000);
    one.push_instances(starts.iter().map(|&s| starting_at(a4, s)).collect());
    let mut many = RollingWindowSession::new(800_000_000);
    for chunk in starts.chunks(3) {
        many.push_instances(chunk.iter().map(|&s| starting_at(a4, s)).collect());
    }
    assert_eq!(one.instances(), many.instances());
    // Newest starts at 2.6 s: only notes from 1.8 s on remain.
    let kept: Vec<u128> = one.instances().iter().map(|i| i.start_nanos / 1_000_000).collect();
    assert_eq!(kept, vec![2600]);
}
