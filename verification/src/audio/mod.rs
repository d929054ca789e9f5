//! Audio analysis, caches, stretching and playback.

pub mod base64;
pub mod decode;
pub mod engine;
pub mod layout;
pub mod pcm_cache;
pub mod peaks;
pub mod peaks_cache;
pub mod playback;
pub mod scan;
pub mod stft;
pub mod stretch;
pub mod warp;
pub mod words;
