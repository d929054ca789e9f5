//! Verified core of a practice-track editor: audio analysis and its on-disk caches,
//! time-stretch planning, the playback engine's decisions, and the planning side of the
//! piano-roll video export.
//!
//! Sample values and times are carried as IEEE bit patterns (`u32` for single precision,
//! `u64` for double precision). They are moved, ordered, counted, compared and turned into
//! whole numbers here; the caller adds and multiplies them.

pub mod audio;
pub mod bits;
pub mod convert;
pub mod ffmpeg;
pub mod lists;
pub mod order;
pub mod project;
pub mod text;
pub mod video;
