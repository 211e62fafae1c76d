//! Cue-synchronized playback control.
//!
//! A recorded video is annotated with a fixed, ascending sequence of cue
//! points (timecodes exported from an editing tool).  This library holds the
//! parts of such a player that carry real invariants: the [`time::Time`]
//! timecode value, the sorted [`cues::Cues`] table with its boundary-search
//! semantics, and the [`controller::PlaybackSyncController`] state machine
//! that reconciles position reports from a playback engine with manual
//! advance/retreat commands.  The engine itself, the window and the key
//! handling live outside the library and interact with it through plain
//! values.
//!
//! A playback position is measured in frame ticks: the number of whole
//! seconds times the frame rate, plus the frame count.  This keeps every
//! comparison between a reported position and a cue's instant exact.

pub mod args;
pub mod controller;
pub mod cues;
pub mod text;
pub mod time;
