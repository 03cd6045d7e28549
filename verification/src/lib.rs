//! Incremental media-transcription core: directory-scan records, staleness
//! resolution, deterministic output naming, debounced change notification,
//! and the decision logic of the two-stage transcription pipeline.
//!
//! All filesystem walking, process spawning and watch registration live in
//! the surrounding application; this library works on plain values handed
//! in from those edges and is verified end to end.

pub mod naming;
pub mod pipeline;
pub mod records;
pub mod resolve;
pub mod runner;
pub mod watch;
