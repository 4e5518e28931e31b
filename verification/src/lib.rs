//! Verified core of a desktop music visualizer: audio-session listing,
//! "now playing" bookkeeping and the integer side of the capture pipeline.

pub mod text;
pub mod audio;
pub mod smtc;
pub mod now_playing;
pub mod capture;
