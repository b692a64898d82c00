//! Planning core of a desktop video splitter.
//!
//! The library decides everything about a split or convert job that can be
//! decided without touching a file, a process or a window: which files are
//! taken, how output files are named, which crop window is used, how a tracked
//! subject turns into crop segments, which arguments `ffmpeg` and `ffprobe`
//! get, and what a running job does next. All of it works on integers, text
//! and bit patterns; the surrounding program does the floating-point work and
//! the I/O.

pub mod crop;
pub mod ffmpeg;
pub mod frames;
pub mod job;
pub mod listing;
pub mod naming;
pub mod probe;
pub mod process;
pub mod segments;
pub mod text;
pub mod tracking;
pub mod trajectory;
