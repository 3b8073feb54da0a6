# ip_core

The verified core of an intonation profiler: a tuner that reports aggregate
intonation over a passage of playing rather than note-by-note feedback.

`src/` is verified with Verus and holds everything that is integer logic or
carries values through unchanged:

- `note`: pitch classes, note names from a semitone count, note labels ("F#5").
- `buffer`: cutting raw sample blocks into overlapping windows, each marked with its end sample.
- `gate`: turning named detector frames into sustained, trimmed note instances.
- `aggregate`: pooling note instances into one bin per note.
- `session`: the rolling window of recent notes and the record of a capture.

`app/` holds what computes with floating point (pitch detection through the
`pitch-detection` crate, frequency-to-note rounding, medians and interquartile
ranges) and the WebAssembly bindings.
