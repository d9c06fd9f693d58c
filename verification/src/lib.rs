//! Shift the time encoding of SubRip (`.srt`) and WebVTT (`.vtt`) subtitle
//! files by a signed offset, optionally restricted to a window of the
//! timeline, optionally converting between the two formats.
//!
//! All times are measured in integer milliseconds. A cue whose shifted end
//! falls before the start of the media is deleted together with its text
//! lines; a cue whose start alone falls before zero is clamped to start at
//! zero. Output file names carry a token recording the cumulative offset so
//! that repeated runs compose instead of drifting.

pub mod digits;
pub mod errors;
pub mod formats;
pub mod machine;
pub mod matcher;
pub mod naming;
pub mod policy;
pub mod time_codec;
pub mod validate;
