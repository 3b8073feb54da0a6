//! Configuration read by gating and by the choice of detector.

use vstd::prelude::*;

verus! {

/// Which pitch-estimation algorithm a detector runs.
#[derive(Debug, Clone, Copy, PartialEq, Eq, Structural)]
pub enum Algorithm {
    McLeod,
    Yin,
}

/// Timing thresholds of [`crate::gate::Gate`], in nanoseconds.
#[derive(Debug, Clone, Copy, PartialEq, Eq, Structural)]
pub struct GateThresholds {
    /// Runs shorter than this are ornaments (cuts, taps, rolls), not notes.
    pub min_note_duration_nanos: u128,
    /// Attack transient trimmed off the front of each surviving run.
    pub transient_trim_nanos: u128,
    /// Phrase-end droop trimmed off the back of each surviving run.
    pub tail_trim_nanos: u128,
}

impl Default for GateThresholds {
    /// 100 ms minimum note, 50 ms trimmed off each end.
    fn default() -> (t: Self)
        ensures
            t.min_note_duration_nanos == 100_000_000,
            t.transient_trim_nanos == 50_000_000,
            t.tail_trim_nanos == 50_000_000,
    {
        GateThresholds {
            min_note_duration_nanos: 100_000_000,
            transient_trim_nanos: 50_000_000,
            tail_trim_nanos: 50_000_000,
        }
    }
}

} // verus!
