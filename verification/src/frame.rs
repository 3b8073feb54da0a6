//! What gating takes in and what it hands out.

use crate::note::NoteName;
use vstd::prelude::*;

verus! {

/// One confident detector frame, already named: the note it is nearest to,
/// its deviation from that note (carried through unchanged), and its time in
/// nanoseconds from the start of the session.
#[derive(Debug, Clone, Copy, PartialEq)]
pub struct NoteFrame<C> {
    pub note: NoteName,
    pub cents: C,
    pub timestamp_nanos: u128,
}

/// A gated, trimmed run of frames recognised as a single sustained note.
#[derive(Debug, Clone, PartialEq)]
pub struct NoteInstance<C> {
    pub note: NoteName,
    pub cents_samples: Vec<C>,
    pub start_nanos: u128,
    pub duration_nanos: u128,
}

/// A note instance as a mathematical value.
pub ghost struct NoteView<C> {
    pub note: NoteName,
    pub cents: Seq<C>,
    pub start_nanos: u128,
    pub duration_nanos: u128,
}

impl<C> View for NoteInstance<C> {
    type V = NoteView<C>;

    open spec fn view(&self) -> NoteView<C> {
        NoteView {
            note: self.note,
            cents: self.cents_samples@,
            start_nanos: self.start_nanos,
            duration_nanos: self.duration_nanos,
        }
    }
}

/// The view of an optional note instance.
pub open spec fn instance_view<C>(o: Option<NoteInstance<C>>) -> Option<NoteView<C>> {
    match o {
        Some(i) => Some(i@),
        None => None,
    }
}

} // verus!
