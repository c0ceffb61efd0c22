//! Audio authoring core: sample sources, the mixer and renderer that combine
//! them, and the decisions the loader makes about how a file is opened.
//!
//! Everything here is generic over the sample type; the player instantiates it
//! with 32-bit float samples.

pub mod audio_renderer;
pub mod basics;
mod flag;
pub mod format;
pub mod loader;
pub mod memory_source;
pub mod mixing;
pub mod packet_buffer;
pub mod source;
pub mod voice_mixer;
