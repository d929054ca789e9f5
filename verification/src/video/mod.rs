//! The piano-roll video: what a frame shows and how the export is run.

pub mod canvas;
pub mod export;
pub mod frame;
pub mod keyboard;
pub mod rng;
pub mod scene;
