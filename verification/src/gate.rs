//! Gating: turns a stream of named detector frames into note instances,
//! rejecting runs shorter than the ornament threshold and trimming the attack
//! transient and phrase-end tail off whatever survives.

use crate::config::GateThresholds;
use crate::frame::{instance_view, NoteFrame, NoteInstance, NoteView};
use crate::note::NoteName;
use vstd::prelude::*;

verus! {

/// A run in progress: its note, the times of its first and latest frames,
/// and every (time, cents) sample it has gathered, in arrival order.
pub ghost struct RunView<C> {
    pub note: NoteName,
    pub start: u128,
    pub last: u128,
    pub samples: Seq<(u128, C)>,
}

/// Abstract state of a [`Gate`].
pub ghost struct GateView<C> {
    pub thresholds: GateThresholds,
    pub running: Option<RunView<C>>,
}

/// How long a run lasted: from its first to its latest frame, or zero if the
/// latest frame is stamped earlier than the first.
pub open spec fn run_duration<C>(run: RunView<C>) -> int {
    if run.last >= run.start {
        run.last - run.start
    } else {
        0
    }
}

/// The cents of the samples stamped within `[head, tail]`, in order.
pub open spec fn kept_cents<C>(samples: Seq<(u128, C)>, head: int, tail: int) -> Seq<C>
    decreases samples.len(),
{
    if samples.len() == 0 {
        seq![]
    } else {
        let last = samples.last();
        kept_cents(samples.drop_last(), head, tail) + if head <= last.0 <= tail {
            seq![last.1]
        } else {
            seq![]
        }
    }
}

/// Start of the kept part of a run: its first frame plus the transient trim.
pub open spec fn head_cutoff<C>(th: GateThresholds, run: RunView<C>) -> int {
    run.start + th.transient_trim_nanos
}

/// End of the kept part of a run: its end less the tail trim, but never
/// before its first frame.
pub open spec fn tail_cutoff<C>(th: GateThresholds, run: RunView<C>) -> int {
    let d = run_duration(run);
    run.start + d - if th.tail_trim_nanos <= d {
        th.tail_trim_nanos as int
    } else {
        d
    }
}

/// What closing out a run yields: nothing if it is shorter than the minimum
/// note duration or if trimming leaves no sample; otherwise the note, the
/// cents of the samples inside the trimmed span, and the run's start and
/// duration.
pub open spec fn finalized<C>(th: GateThresholds, run: RunView<C>) -> Option<NoteView<C>> {
    let d = run_duration(run);
    let cents = kept_cents(run.samples, head_cutoff(th, run), tail_cutoff(th, run));
    if d < th.min_note_duration_nanos || cents.len() == 0 {
        None
    } else {
        Some(NoteView { note: run.note, cents, start_nanos: run.start, duration_nanos: d as u128 })
    }
}

/// What closing out whatever is running yields.
pub open spec fn closed_out<C>(th: GateThresholds, running: Option<RunView<C>>) -> Option<NoteView<C>> {
    match running {
        Some(run) => finalized(th, run),
        None => None,
    }
}

/// Whether a frame of `note` continues the run in progress.
pub open spec fn continues_run<C>(running: Option<RunView<C>>, note: NoteName) -> bool {
    running matches Some(run) && run.note == note
}

/// A run extended by one more frame of its note.
pub open spec fn extended_run<C>(run: RunView<C>, frame: NoteFrame<C>) -> RunView<C> {
    RunView {
        note: run.note,
        start: run.start,
        last: frame.timestamp_nanos,
        samples: run.samples.push((frame.timestamp_nanos, frame.cents)),
    }
}

/// The run a frame starts.
pub open spec fn fresh_run<C>(frame: NoteFrame<C>) -> RunView<C> {
    RunView {
        note: frame.note,
        start: frame.timestamp_nanos,
        last: frame.timestamp_nanos,
        samples: seq![(frame.timestamp_nanos, frame.cents)],
    }
}

/// Every cents value a trimmed run keeps comes from one of its samples
/// stamped inside the kept span, and no more values are kept than there were
/// samples: no transient or tail sample leaks through.
pub proof fn lemma_kept_samples_lie_inside_the_span<C>(samples: Seq<(u128, C)>, head: int, tail: int)
    ensures
        kept_cents(samples, head, tail).len() <= samples.len(),
        forall|j: int|
            0 <= j < kept_cents(samples, head, tail).len() ==> exists|i: int|
                0 <= i < samples.len() && head <= (#[trigger] samples[i]).0 <= tail && samples[i].1
                    == #[trigger] kept_cents(samples, head, tail)[j],
    decreases samples.len(),
{
    if samples.len() > 0 {
        let prefix = samples.drop_last();
        lemma_kept_samples_lie_inside_the_span(prefix, head, tail);
        let kept = kept_cents(samples, head, tail);
        let kept_prefix = kept_cents(prefix, head, tail);
        assert forall|j: int| 0 <= j < kept.len() implies exists|i: int|
            0 <= i < samples.len() && head <= (#[trigger] samples[i]).0 <= tail && samples[i].1 == #[trigger] kept[j] by {
            if j < kept_prefix.len() {
                let i = choose|i: int|
                    0 <= i < prefix.len() && head <= (#[trigger] prefix[i]).0 <= tail && prefix[i].1 == kept_prefix[j];
                assert(samples[i] == prefix[i]);
            } else {
                assert(samples[samples.len() - 1] == samples.last());
            }
        }
    }
}

/// A run shorter than the minimum note duration never surfaces as a note,
/// and whatever does surface lasted at least that long, kept at least one
/// sample, and carries the run's note and start.
pub proof fn lemma_gating_outcome<C>(th: GateThresholds, run: RunView<C>)
    ensures
        run_duration(run) < th.min_note_duration_nanos ==> finalized(th, run) is None,
        finalized(th, run) matches Some(v) ==> {
            &&& v.duration_nanos >= th.min_note_duration_nanos
            &&& v.duration_nanos == run_duration(run)
            &&& v.cents.len() > 0
            &&& v.note == run.note
            &&& v.start_nanos == run.start
        },
{
}

/// Closing out when nothing runs yields nothing, so a second flush (or
/// silence after silence) never yields a note.
pub proof fn lemma_nothing_running_yields_nothing<C>(th: GateThresholds)
    ensures
        closed_out::<C>(th, None) is None,
{
}

/// When every sample of a run lies inside its kept span, trimming keeps all
/// of their cents, in order.
pub proof fn lemma_nothing_trimmed_inside_span<C>(samples: Seq<(u128, C)>, head: int, tail: int)
    requires
        forall|i: int| 0 <= i < samples.len() ==> head <= (#[trigger] samples[i]).0 <= tail,
    ensures
        kept_cents(samples, head, tail) == samples.map_values(|s: (u128, C)| s.1),
    decreases samples.len(),
{
    if samples.len() > 0 {
        let prefix = samples.drop_last();
        assert forall|i: int| 0 <= i < prefix.len() implies head <= (#[trigger] prefix[i]).0 <= tail by {
            assert(prefix[i] == samples[i]);
        }
        lemma_nothing_trimmed_inside_span(prefix, head, tail);
        assert(samples[samples.len() - 1] == samples.last());
        assert(samples.map_values(|s: (u128, C)| s.1) =~= prefix.map_values(|s: (u128, C)| s.1).push(
            samples.last().1,
        ));
    } else {
        assert(samples.map_values(|s: (u128, C)| s.1) =~= Seq::<C>::empty());
    }
}

/// Whether a (time, cents) sample is stamped within `[head, tail]`.
pub open spec fn in_span<C>(head: int, tail: int) -> spec_fn((u128, C)) -> bool {
    |s: (u128, C)| head <= s.0 <= tail
}

/// The cents of a run of samples, in order.
pub open spec fn cents_of<C>(samples: Seq<(u128, C)>) -> Seq<C> {
    samples.map_values(|s: (u128, C)| s.1)
}

proof fn lemma_kept_is_filtered<C>(samples: Seq<(u128, C)>, head: int, tail: int)
    ensures
        kept_cents(samples, head, tail) == cents_of(samples.filter(in_span::<C>(head, tail))),
    decreases samples.len(),
{
    reveal(Seq::filter);
    if samples.len() == 0 {
        assert(cents_of(samples.filter(in_span::<C>(head, tail))) =~= Seq::<C>::empty());
    } else {
        let prefix = samples.drop_last();
        lemma_kept_is_filtered(prefix, head, tail);
        let sub = prefix.filter(in_span::<C>(head, tail));
        if head <= samples.last().0 <= tail {
            assert(cents_of(sub.push(samples.last())) =~= cents_of(sub).push(samples.last().1));
            assert(kept_cents(samples, head, tail) =~= cents_of(sub).push(samples.last().1));
        } else {
            assert(kept_cents(samples, head, tail) =~= kept_cents(prefix, head, tail));
        }
    }
}

/// Closing out a run, in the terms gating is described in: with
/// `d` the run's duration (latest frame less first, or zero if stamped
/// backwards), the kept span runs from the first frame plus the transient
/// trim to the run's end less the tail trim (never less than the start),
/// and the kept cents are those of the samples stamped inside that span, in
/// the order they came. The run yields nothing if `d` is below the minimum
/// note duration or no sample is kept, and otherwise a note instance with
/// the run's note and start, those cents, and duration `d`.
pub proof fn lemma_finalized_keeps_the_samples_inside_the_span<C>(th: GateThresholds, run: RunView<C>)
    ensures
        ({
            let d = if run.last >= run.start { run.last - run.start } else { 0 };
            let head = run.start + th.transient_trim_nanos;
            let tail = run.start + d - (if th.tail_trim_nanos <= d { th.tail_trim_nanos as int } else { d });
            let cs = cents_of(run.samples.filter(in_span::<C>(head, tail)));
            finalized(th, run) == if d < th.min_note_duration_nanos || cs.len() == 0 {
                None
            } else {
                Some(NoteView { note: run.note, cents: cs, start_nanos: run.start, duration_nanos: d as u128 })
            }
        }),
{
    lemma_kept_is_filtered(run.samples, head_cutoff(th, run), tail_cutoff(th, run));
}

/// A run extended frame by frame by the given frames, in order.
pub open spec fn extended_by<C>(run: RunView<C>, frames: Seq<NoteFrame<C>>) -> RunView<C>
    decreases frames.len(),
{
    if frames.len() == 0 {
        run
    } else {
        extended_run(extended_by(run, frames.drop_last()), frames.last())
    }
}

/// Frames of a running note keep it open, and what it later yields reaches
/// at least to each of them. Frames all of the run's note continue it (each
/// push yields nothing and leaves `extended_run` of the run, so a sequence
/// of them leaves `extended_by`): the run keeps its note and start, gathers
/// their samples in order, and ends at the last frame. When their times do
/// not decrease, whatever the run yields once closed has the run's note and
/// start and lasts at least from the start to each frame's time.
pub proof fn lemma_continued_run_keeps_note_and_start<C>(
    th: GateThresholds,
    run: RunView<C>,
    frames: Seq<NoteFrame<C>>,
)
    requires
        forall|i: int| 0 <= i < frames.len() ==> (#[trigger] frames[i]).note == run.note,
    ensures
        forall|k: int| 0 <= k <= frames.len() ==> continues_run(Some(extended_by(run, frames.take(k))), run.note),
        extended_by(run, frames).note == run.note,
        extended_by(run, frames).start == run.start,
        extended_by(run, frames).samples == run.samples + frames.map_values(
            |f: NoteFrame<C>| (f.timestamp_nanos, f.cents),
        ),
        frames.len() > 0 ==> extended_by(run, frames).last == frames.last().timestamp_nanos,
        (forall|i: int, j: int|
            0 <= i <= j < frames.len() ==> (#[trigger] frames[i]).timestamp_nanos <= (
            #[trigger] frames[j]).timestamp_nanos) ==> (finalized(th, extended_by(run, frames)) matches Some(
            v,
        ) ==> {
            &&& v.note == run.note
            &&& v.start_nanos == run.start
            &&& forall|i: int|
                0 <= i < frames.len() ==> v.duration_nanos >= (#[trigger] frames[i]).timestamp_nanos - run.start
        }),
    decreases frames.len(),
{
    let ext = extended_by(run, frames);
    if frames.len() == 0 {
        assert(frames.map_values(|f: NoteFrame<C>| (f.timestamp_nanos, f.cents)) =~= Seq::<(u128, C)>::empty());
        assert(run.samples + Seq::<(u128, C)>::empty() =~= run.samples);
        assert forall|k: int| 0 <= k <= frames.len() implies continues_run(Some(extended_by(run, frames.take(k))), run.note) by {
            assert(frames.take(k) =~= frames);
        }
    } else {
        let front = frames.drop_last();
        assert forall|i: int| 0 <= i < front.len() implies (#[trigger] front[i]).note == run.note by {
            assert(front[i] == frames[i]);
        }
        lemma_continued_run_keeps_note_and_start(th, run, front);
        assert(frames.map_values(|f: NoteFrame<C>| (f.timestamp_nanos, f.cents)) =~= front.map_values(
            |f: NoteFrame<C>| (f.timestamp_nanos, f.cents),
        ).push((frames.last().timestamp_nanos, frames.last().cents)));
        assert(ext.samples =~= run.samples + frames.map_values(|f: NoteFrame<C>| (f.timestamp_nanos, f.cents)));
        assert forall|k: int| 0 <= k <= frames.len() implies continues_run(Some(extended_by(run, frames.take(k))), run.note) by {
            if k < frames.len() {
                assert(frames.take(k) =~= front.take(k));
            } else {
                assert(frames.take(k) =~= frames);
            }
        }
        assert(frames[frames.len() - 1] == frames.last());
    }
}

/// One window's effect on a [`Gate`]: a confident, named frame is pushed, and
/// a window with none (silence, too little power, too low a clarity, or out
/// of range) closes out whatever runs. Gives the run left open and what was
/// closed out, if anything.
pub open spec fn gate_step<C>(
    th: GateThresholds,
    running: Option<RunView<C>>,
    detection: Option<NoteFrame<C>>,
) -> (Option<RunView<C>>, Option<NoteView<C>>) {
    match detection {
        None => (None, closed_out(th, running)),
        Some(frame) => if continues_run(running, frame.note) {
            (Some(extended_run(running.unwrap(), frame)), None)
        } else {
            (Some(fresh_run(frame)), closed_out(th, running))
        },
    }
}

/// The windows' effects in turn: the run left open at the end, and every
/// note instance closed out along the way, in order.
pub open spec fn gate_steps<C>(
    th: GateThresholds,
    running: Option<RunView<C>>,
    detections: Seq<Option<NoteFrame<C>>>,
) -> (Option<RunView<C>>, Seq<NoteView<C>>)
    decreases detections.len(),
{
    if detections.len() == 0 {
        (running, seq![])
    } else {
        let (open, closed) = gate_steps(th, running, detections.drop_last());
        let (next, out) = gate_step(th, open, detections.last());
        (
            next,
            match out {
                Some(v) => closed.push(v),
                None => closed,
            },
        )
    }
}

/// The views of a run of note instances.
pub open spec fn instance_views<C>(instances: Seq<NoteInstance<C>>) -> Seq<NoteView<C>> {
    instances.map_values(|i: NoteInstance<C>| i@)
}

/// A frame continues the running note exactly when something is running and
/// its note, pitch class and octave both, is the frame's note.
pub proof fn lemma_only_the_same_note_continues_a_run<C>(running: Option<RunView<C>>, note: NoteName)
    ensures
        continues_run(running, note) <==> (running is Some && running->0.note.pitch_class == note.pitch_class
            && running->0.note.octave == note.octave),
{
}

/// A frame extends a run by becoming its latest frame and appending its
/// (time, cents) sample, keeping the run's note and start; a frame starts a
/// run of its own note that begins and ends at it, holding just its sample.
pub proof fn lemma_extending_and_starting_runs<C>(run: RunView<C>, frame: NoteFrame<C>)
    ensures
        extended_run(run, frame).note == run.note,
        extended_run(run, frame).start == run.start,
        extended_run(run, frame).last == frame.timestamp_nanos,
        extended_run(run, frame).samples.len() == run.samples.len() + 1,
        extended_run(run, frame).samples.last() == (frame.timestamp_nanos, frame.cents),
        extended_run(run, frame).samples.drop_last() == run.samples,
        fresh_run(frame).note == frame.note,
        fresh_run(frame).start == frame.timestamp_nanos,
        fresh_run(frame).last == frame.timestamp_nanos,
        fresh_run(frame).samples.len() == 1,
        fresh_run(frame).samples[0] == (frame.timestamp_nanos, frame.cents),
{
    assert(extended_run(run, frame).samples.drop_last() =~= run.samples);
}

/// What one window does to the running note, in plain terms. A window with
/// no detection leaves nothing running and closes out whatever ran (nothing
/// if nothing ran, else that run's gated instance). A frame of the running
/// note extends it: same note and start, ending at the frame, with the
/// frame's (time, cents) appended to its samples, and nothing is closed
/// out. Any other frame closes out the running note and starts a new run of
/// its own, beginning and ending at the frame, with the frame as its only
/// sample.
pub proof fn lemma_one_window_in_plain_terms<C>(
    th: GateThresholds,
    running: Option<RunView<C>>,
    detection: Option<NoteFrame<C>>,
)
    ensures
        detection is None ==> gate_step(th, running, detection).0 is None,
        detection is None && running is None ==> gate_step(th, running, detection).1 is None,
        detection is None && running is Some ==> gate_step(th, running, detection).1 == finalized(th, running->0),
        detection is Some && running is Some && running->0.note == detection->0.note ==> {
            &&& gate_step(th, running, detection).1 is None
            &&& gate_step(th, running, detection).0 == Some(
                RunView {
                    note: running->0.note,
                    start: running->0.start,
                    last: detection->0.timestamp_nanos,
                    samples: running->0.samples.push((detection->0.timestamp_nanos, detection->0.cents)),
                },
            )
        },
        detection is Some && !(running is Some && running->0.note == detection->0.note) ==> {
            &&& gate_step(th, running, detection).0 == Some(
                RunView {
                    note: detection->0.note,
                    start: detection->0.timestamp_nanos,
                    last: detection->0.timestamp_nanos,
                    samples: seq![(detection->0.timestamp_nanos, detection->0.cents)],
                },
            )
            &&& running is None ==> gate_step(th, running, detection).1 is None
            &&& running is Some ==> gate_step(th, running, detection).1 == finalized(th, running->0)
        },
{
}

/// Gating a run of windows in one call is gating them one at a time: the
/// windows up to the last are gated first, then the last window acts on
/// the run they left open, and what it closes out, if anything, comes
/// after everything they closed out.
pub proof fn lemma_windows_are_gated_one_at_a_time<C>(
    th: GateThresholds,
    running: Option<RunView<C>>,
    detections: Seq<Option<NoteFrame<C>>>,
    detection: Option<NoteFrame<C>>,
)
    ensures
        ({
            let before = gate_steps(th, running, detections);
            let after = gate_steps(th, running, detections.push(detection));
            let step = gate_step(th, before.0, detection);
            &&& after.0 == step.0
            &&& step.1 is None ==> after.1 == before.1
            &&& step.1 matches Some(v) ==> after.1 == before.1.push(v)
        }),
        gate_steps(th, running, Seq::empty()) == (running, Seq::<NoteView<C>>::empty()),
{
    assert(detections.push(detection).drop_last() =~= detections);
}

/// Closing out nothing yields nothing; closing out a run yields exactly what
/// finalizing it yields.
pub proof fn lemma_closing_out<C>(th: GateThresholds, run: RunView<C>)
    ensures
        closed_out::<C>(th, None) is None,
        closed_out(th, Some(run)) == finalized(th, run),
{
}

struct RunningNote<C> {
    note: NoteName,
    start: u128,
    last_timestamp: u128,
    samples: Vec<(u128, C)>,
}

impl<C> RunningNote<C> {
    closed spec fn view_run(self) -> RunView<C> {
        RunView { note: self.note, start: self.start, last: self.last_timestamp, samples: self.samples@ }
    }
}

spec fn running_view<C>(running: Option<RunningNote<C>>) -> Option<RunView<C>> {
    match running {
        Some(r) => Some(r.view_run()),
        None => None,
    }
}

/// Turns a stream of named detector frames into gated note instances.
pub struct Gate<C> {
    thresholds: GateThresholds,
    running: Option<RunningNote<C>>,
}

impl<C> View for Gate<C> {
    type V = GateView<C>;

    closed spec fn view(&self) -> GateView<C> {
        GateView { thresholds: self.thresholds, running: running_view(self.running) }
    }
}

impl<C: Copy> Gate<C> {
    /// A gate with nothing running.
    pub fn new(thresholds: GateThresholds) -> (gate: Self)
        ensures
            gate@ == (GateView::<C> { thresholds, running: None }),
    {
        Gate { thresholds, running: None }
    }

    /// Feeds one confident, named frame. A frame of the note already running
    /// extends that run and yields nothing; any other frame closes out the
    /// run in progress (yielding its instance, if it survives gating) and
    /// starts a new run with itself.
    pub fn push(&mut self, frame: NoteFrame<C>) -> (finished: Option<NoteInstance<C>>)
        ensures
            final(self)@.thresholds == old(self)@.thresholds,
            continues_run(old(self)@.running, frame.note) ==> {
                &&& finished is None
                &&& final(self)@.running == Some(extended_run(old(self)@.running.unwrap(), frame))
            },
            !continues_run(old(self)@.running, frame.note) ==> {
                &&& instance_view(finished) == closed_out(old(self)@.thresholds, old(self)@.running)
                &&& final(self)@.running == Some(fresh_run(frame))
            },
    {
        let same_note = match &self.running {
            Some(run) => run.note == frame.note,
            None => false,
        };
        if same_note {
            let mut run = self.running.take().unwrap();
            run.last_timestamp = frame.timestamp_nanos;
            run.samples.push((frame.timestamp_nanos, frame.cents));
            self.running = Some(run);
            None
        } else {
            let finished = self.end_run();
            let mut samples: Vec<(u128, C)> = Vec::new();
            samples.push((frame.timestamp_nanos, frame.cents));
            self.running = Some(
                RunningNote {
                    note: frame.note,
                    start: frame.timestamp_nanos,
                    last_timestamp: frame.timestamp_nanos,
                    samples,
                },
            );
            assert(samples@ =~= seq![(frame.timestamp_nanos, frame.cents)]);
            finished
        }
    }

    /// Feeds the detections of a run of windows, in order: each confident,
    /// named frame is pushed as by [`Gate::push`], and each window without
    /// one closes out the running note as by [`Gate::push_silence`]. Returns
    /// every note instance closed out along the way, in order.
    pub fn push_detections(&mut self, detections: Vec<Option<NoteFrame<C>>>) -> (finished: Vec<NoteInstance<C>>)
        ensures
            final(self)@.thresholds == old(self)@.thresholds,
            final(self)@.running == gate_steps(old(self)@.thresholds, old(self)@.running, detections@).0,
            instance_views(finished@) == gate_steps(old(self)@.thresholds, old(self)@.running, detections@).1,
    {
        let mut finished: Vec<NoteInstance<C>> = Vec::new();
        let mut i: usize = 0;
        while i < detections.len()
            invariant
                i <= detections@.len(),
                self@.thresholds == old(self)@.thresholds,
                self@.running == gate_steps(old(self)@.thresholds, old(self)@.running, detections@.take(i as int)).0,
                instance_views(finished@) == gate_steps(
                    old(self)@.thresholds,
                    old(self)@.running,
                    detections@.take(i as int),
                ).1,
            decreases detections@.len() - i,
        {
            let ghost seen = detections@.take(i + 1);
            assert(seen.drop_last() =~= detections@.take(i as int));
            assert(seen.last() == detections@[i as int]);
            let ghost before = finished@;
            let closed = match detections[i] {
                Some(frame) => self.push(frame),
                None => self.push_silence(),
            };
            match closed {
                Some(instance) => {
                    finished.push(instance);
                    assert(instance_views(finished@) =~= instance_views(before).push(instance@));
                },
                None => {},
            }
            i = i + 1;
        }
        assert(detections@.take(detections@.len() as int) =~= detections@);
        finished
    }

    /// Closes out whatever note is in progress, e.g. at the end of a capture.
    pub fn flush(&mut self) -> (finished: Option<NoteInstance<C>>)
        ensures
            final(self)@ == (GateView::<C> { thresholds: old(self)@.thresholds, running: None }),
            instance_view(finished) == closed_out(old(self)@.thresholds, old(self)@.running),
    {
        self.end_run()
    }

    /// No pitch was detected at all for a window (silence, too little power,
    /// a frame below the clarity threshold, or one outside the instrument's
    /// range): whatever note was running is closed out rather than left
    /// dangling across the gap.
    pub fn push_silence(&mut self) -> (finished: Option<NoteInstance<C>>)
        ensures
            final(self)@ == (GateView::<C> { thresholds: old(self)@.thresholds, running: None }),
            instance_view(finished) == closed_out(old(self)@.thresholds, old(self)@.running),
    {
        self.end_run()
    }

    fn end_run(&mut self) -> (finished: Option<NoteInstance<C>>)
        ensures
            final(self)@ == (GateView::<C> { thresholds: old(self)@.thresholds, running: None }),
            instance_view(finished) == closed_out(old(self)@.thresholds, old(self)@.running),
    {
        match self.running.take() {
            Some(run) => self.finalize(run),
            None => None,
        }
    }

    fn finalize(&self, running: RunningNote<C>) -> (finished: Option<NoteInstance<C>>)
        ensures
            instance_view(finished) == finalized(self.thresholds, running.view_run()),
    {
        let ghost run = running.view_run();
        let start = running.start;
        let duration: u128 = if running.last_timestamp >= start {
            running.last_timestamp - start
        } else {
            0
        };
        if duration < self.thresholds.min_note_duration_nanos {
            return None;
        }
        let transient = self.thresholds.transient_trim_nanos;
        let tail_trim: u128 = if self.thresholds.tail_trim_nanos <= duration {
            self.thresholds.tail_trim_nanos
        } else {
            duration
        };
        let tail: u128 = start + duration - tail_trim;
        assert(tail == tail_cutoff(self.thresholds, run));
        let ghost head: int = head_cutoff(self.thresholds, run);
        let mut cents_samples: Vec<C> = Vec::new();
        let mut i: usize = 0;
        while i < running.samples.len()
            invariant
                i <= running.samples@.len(),
                run == running.view_run(),
                head == start + transient,
                cents_samples@ == kept_cents(running.samples@.take(i as int), head, tail as int),
            decreases running.samples@.len() - i,
        {
            let (timestamp, cents) = running.samples[i];
            let ghost prefix = running.samples@.take(i as int);
            assert(running.samples@.take(i + 1).drop_last() =~= prefix);
            if timestamp >= start && timestamp - start >= transient && timestamp <= tail {
                cents_samples.push(cents);
            }
            i = i + 1;
        }
        assert(running.samples@.take(running.samples@.len() as int) =~= running.samples@);
        if cents_samples.len() == 0 {
            return None;
        }
        Some(NoteInstance { note: running.note, cents_samples, start_nanos: start, duration_nanos: duration })
    }
}

} // verus!
