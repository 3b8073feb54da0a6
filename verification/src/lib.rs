//! Verified core of an intonation profiler: note naming, windowing of raw
//! audio into overlapping detection windows, gating of detector frames into
//! sustained note instances, pooling of those instances by note, and the
//! rolling and whole-capture bookkeeping of gated notes.
//!
//! Every value here is an integer or a value carried through unchanged
//! (audio samples and cents deviations are type parameters): the library
//! never computes with them, so its contracts hold for any sample type.

pub mod note;
pub mod buffer;
pub mod config;
pub mod frame;
pub mod gate;
pub mod aggregate;
pub mod session;
