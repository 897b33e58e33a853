//! Drives an ffmpeg-like transcoder that turns a video into an animated GIF.
//!
//! This crate holds the verified core of the job: decoding the timing
//! information that the transcoder writes to its diagnostic stream, the
//! progress estimate derived from it, the command line of the job, and the
//! decisions taken by each of the stream workers that run a conversion.
pub mod job;
pub mod settings;
pub mod time_parsing;

pub use job::{
    Command, Error, JobState, Message, Poll, StderrReader, StderrStep, StdinAction, QUIT_SIGNAL,
    exit_outcome, stdin_next, stdout_outcome,
};
pub use settings::{STANDARD_FPS, Settings};
pub use time_parsing::{
    Duration, Progress, decode_time, duration_from_ffmpeg_time_string, extract_duration,
    extract_frame_time, parse_digits, progress_from_durations, try_extract_duration,
    try_extract_frame_time,
};
