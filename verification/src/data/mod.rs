//! On-disk level data: the run-length-encoded chunk payloads and the level
//! file container that indexes them.

pub mod level_file;
pub mod rle;
