//! Project files: what is saved of a session.

use vstd::prelude::*;
use crate::audio::stretch::StretchSeg;

verus! {

/// Version of the project files that are written.
pub const PROJECT_VERSION: u32 = 1;

/// A project. The beats are seconds, as bit patterns of doubles. The audio itself is only
/// referred to; it is never changed.
pub struct BeatsProject {
    pub version: u32,
    pub mp3_path: String,
    pub beats: Vec<u64>,
    pub stretches: Vec<StretchSeg>,
    pub baked_wav_path: Option<String>,
}

impl BeatsProject {
    /// A project of the current version.
    pub fn new(
        mp3_path: String,
        beats: Vec<u64>,
        stretches: Vec<StretchSeg>,
        baked_wav_path: Option<String>,
    ) -> (project: BeatsProject)
        ensures
            project == (BeatsProject {
                version: PROJECT_VERSION,
                mp3_path,
                beats,
                stretches,
                baked_wav_path,
            }),
    {
        BeatsProject { version: PROJECT_VERSION, mp3_path, beats, stretches, baked_wav_path }
    }
}

} // verus!
