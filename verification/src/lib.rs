//! The verified core of a speech-trigger module: phrase normalisation, the
//! trigger table with its cooldowns, the event queue, and the handling of the
//! captured audio.
pub mod audio;
pub mod audio_laws;
pub mod commands;
pub mod matcher;
pub mod matcher_laws;
pub mod queue;
pub mod text;
pub mod text_laws;
pub mod trigger_laws;
pub mod triggers;
pub mod voice;
pub mod worker;
