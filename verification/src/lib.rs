//! Verified core of a video splitter: subtitle (SRT/VTT) parsing and
//! rendering, transcript search, path naming and scanning of FFmpeg output.

pub mod cue_laws;
pub mod decimal;
pub mod order;
pub mod paths;
pub mod probe;
pub mod search;
pub mod text;
pub mod transcribe;
