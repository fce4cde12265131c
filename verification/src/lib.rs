//! Verified core of a push-to-talk dictation tool: transcript clean-up,
//! recording state, settings and history, provider selection and request
//! planning.

pub mod text;
pub mod postprocess;
pub mod providers;
pub mod transcription;
pub mod config;
pub mod vocabulary;
pub mod state;
pub mod hotkey;
pub mod sound;
pub mod session;
pub mod tray;
pub mod audio;
