//! Core logic of a small URL-to-audio downloader: classifying the log lines
//! of the external conversion pipeline and driving the job's phase state.
pub mod classify;
pub mod state;
