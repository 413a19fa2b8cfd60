//! A step-sequencer core: parses a line-oriented pattern notation into a
//! typed step/amplitude model, reduces instruments that share one audio
//! sample into per-sample tracks, and turns a tempo plus the bound tracks
//! into an exact schedule of delayed, amplitude-scaled sample copies.
//!
//! All durations are carried as integer nanoseconds and all amplitudes as
//! integer millionths of full scale, so every quantity here is exact.
//! Loading sample files, decoding audio and driving an output device are
//! left to the caller.

pub mod audio;
pub mod instrumentation;
pub mod pattern;
pub mod steps;
