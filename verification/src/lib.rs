//! A persistent, staleness-aware cache of the subtitle cues found in a video
//! library, together with the selection-correlation and batch-clip pipeline
//! built on top of it.
//!
//! The store maps video paths to scan results (`db`), decides from filesystem
//! timestamps whether a cached result is still valid, derives a stable
//! identifying string for every cue (`sub`), maps user-selected strings back
//! to concrete cues with duplicate detection (`select`), prepares the ffmpeg
//! invocations that cut the chosen segments (`ffmpeg`), and round-trips the
//! whole store through an on-disk text format (`persist`).

use vstd::prelude::*;

pub mod db;
pub mod ffmpeg;
pub mod persist;
pub mod select;
pub mod sub;
pub mod util;

verus! {

/// Longest run of cue text that may end up in a clip filename.
pub const CLIP_FILENAME_TEXT_LEN: usize = 64;

/// Longest run of the source path that may end up in a clip filename.
pub const CLIP_FILENAME_PATH_LEN: usize = 128;

} // verus!
