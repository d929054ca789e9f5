//! Running an export: what is taken over from the request, in what chunks frames are rendered,
//! and what the outcome is.

use vstd::prelude::*;
use crate::bits;
use crate::bits::{f64_clamp, f64_lt, f64_max, f64_min};
use crate::convert;
use crate::ffmpeg::status_message;
use crate::lists;
use crate::text::joined;
use crate::video::scene::SceneTrack;

verus! {

/// A note of a request. Times are seconds of the stretched audio; they are bit patterns of
/// doubles, `vel` that of a single.
#[derive(Clone, Copy)]
pub struct VideoNote {
    pub start: u64,
    pub dur: u64,
    pub pitch: u8,
    pub vel: u32,
    pub track: usize,
}

/// A track of a request.
#[derive(Clone, Copy)]
pub struct VideoTrack {
    pub color: [u8; 3],
    pub is_piano: bool,
}

/// The options of a request. Times, speed and brightness are bit patterns of doubles.
pub struct VideoOptions {
    /// "vertical" or "horizontal".
    pub orientation: String,
    pub start: u64,
    pub end: u64,
    pub fps: u32,
    pub width: u32,
    pub height: u32,
    pub beat_pulse: bool,
    pub orchestra_bars: bool,
    pub tempo_pendulum: bool,
    pub progress_bar: bool,
    pub next_note_cue: bool,
    pub countdown_pips: bool,
    /// Playback speed as a fraction.
    pub speed: u64,
    /// A video to put the frames on.
    pub bg_video_path: Option<String>,
    /// How bright the background stays.
    pub bg_brightness: u64,
}

/// 0.25, 4 and 0.05 as bit patterns of doubles: the slowest and the fastest speed, and the
/// darkest background.
pub const SPEED_MIN: u64 = 0x3fd0_0000_0000_0000;

pub const SPEED_MAX: u64 = 0x4010_0000_0000_0000;

pub const BRIGHTNESS_MIN: u64 = 0x3fa9_9999_9999_999a;

/// 1.
pub const BRIGHTNESS_MAX: u64 = 0x3ff0_0000_0000_0000;

/// 0.05: no note is shorter.
pub const DUR_MIN: u64 = 0x3fa9_9999_9999_999a;

/// -30: beats further ahead of the clip are dropped.
pub const BEAT_MARGIN: u64 = 0xc03e_0000_0000_0000;

impl VideoNote {
    /// How long a note is held, with a lower limit.
    pub fn held(&self) -> (dur: u64)
        ensures
            dur == bits::max64(self.dur, DUR_MIN),
    {
        f64_max(self.dur, DUR_MIN)
    }
}

impl VideoOptions {
    /// Where the clip starts: not before the audio.
    pub fn clip_start(&self) -> (start: u64)
        ensures
            start == bits::max64(self.start, 0),
    {
        f64_max(self.start, 0)
    }

    /// Where the clip ends: not after the audio, which ends at `audio_end`, but not before
    /// `earliest`.
    pub fn clip_end(&self, audio_end: u64, earliest: u64) -> (end: u64)
        ensures
            end == bits::max64(bits::min64(self.end, audio_end), earliest),
    {
        f64_max(f64_min(self.end, audio_end), earliest)
    }

    /// The speed, within its limits.
    pub fn limited_speed(&self) -> (speed: u64)
        ensures
            speed == bits::clamp64(self.speed, SPEED_MIN, SPEED_MAX),
    {
        f64_clamp(self.speed, SPEED_MIN, SPEED_MAX)
    }

    /// The brightness of the background, within its limits.
    pub fn limited_brightness(&self) -> (brightness: u64)
        ensures
            brightness == bits::clamp64(self.bg_brightness, BRIGHTNESS_MIN, BRIGHTNESS_MAX),
    {
        f64_clamp(self.bg_brightness, BRIGHTNESS_MIN, BRIGHTNESS_MAX)
    }

    /// Whether the keyboard stands on the left.
    pub fn horizontal(&self) -> (yes: bool)
        ensures
            yes == (self.orientation@ == "horizontal"@),
    {
        self.orientation == "horizontal".to_string()
    }

    /// Frames per second, at least one.
    pub fn frame_rate(&self) -> (fps: u32)
        ensures
            fps == (if self.fps == 0 { 1 } else { self.fps as int }),
    {
        if self.fps == 0 {
            1
        } else {
            self.fps
        }
    }

    /// Whether the field of the frames stays transparent: it does where there is a background to
    /// lay them on.
    pub fn transparent(&self) -> (yes: bool)
        ensures
            yes == (self.bg_video_path matches Some(p) && p@.len() > 0),
    {
        self.background().is_some()
    }

    /// The background, if one was named.
    pub fn background(&self) -> (path: Option<String>)
        ensures
            match self.bg_video_path {
                Some(p) => if p@.len() == 0 {
                    path is None
                } else {
                    path matches Some(q) && q@ == p@
                },
                None => path is None,
            },
    {
        match &self.bg_video_path {
            Some(p) => if p.as_str().is_empty() {
                None
            } else {
                Some(p.clone())
            },
            None => None,
        }
    }
}

/// The tracks of the scene.
pub fn scene_tracks(tracks: &[VideoTrack]) -> (out: Vec<SceneTrack>)
    ensures
        out@ == Seq::new(
            tracks@.len(),
            |i: int| SceneTrack { color: tracks@[i].color, is_piano: tracks@[i].is_piano },
        ),
{
    let mut out: Vec<SceneTrack> = Vec::with_capacity(tracks.len());
    let ghost all = Seq::new(
        tracks@.len(),
        |i: int| SceneTrack { color: tracks@[i].color, is_piano: tracks@[i].is_piano },
    );
    let mut i: usize = 0;
    while i < tracks.len()
        invariant
            i <= tracks@.len(),
            all == Seq::new(
                tracks@.len(),
                |i: int| SceneTrack { color: tracks@[i].color, is_piano: tracks@[i].is_piano },
            ),
            out@ == all.take(i as int),
        decreases tracks@.len() - i,
    {
        out.push(SceneTrack { color: tracks[i].color, is_piano: tracks[i].is_piano });
        assert(out@ =~= all.take(i + 1));
        i += 1;
    }
    assert(out@ =~= all);
    out
}

/// Whether a note has a track.
pub open spec fn on_known_track(n_tracks: int) -> spec_fn(VideoNote) -> bool {
    |n: VideoNote| n.track < n_tracks
}

/// Leaves out the notes without a track.
pub fn known_notes(notes: &[VideoNote], n_tracks: usize) -> (out: Vec<VideoNote>)
    ensures
        out@ == notes@.filter(on_known_track(n_tracks as int)),
        forall|i: int| 0 <= i < out@.len() ==> (#[trigger] out@[i]).track < n_tracks,
{
    let mut out: Vec<VideoNote> = Vec::new();
    let mut i: usize = 0;
    proof {
        reveal(Seq::filter);
        assert(notes@.take(0) =~= Seq::<VideoNote>::empty());
    }
    while i < notes.len()
        invariant
            i <= notes@.len(),
            out@ == notes@.take(i as int).filter(on_known_track(n_tracks as int)),
            forall|k: int| 0 <= k < out@.len() ==> (#[trigger] out@[k]).track < n_tracks,
        decreases notes@.len() - i,
    {
        proof {
            lists::lemma_filter_step(notes@, on_known_track(n_tracks as int), i as int);
        }
        if notes[i].track < n_tracks {
            out.push(notes[i]);
        }
        i += 1;
    }
    assert(notes@.take(i as int) =~= notes@);
    out
}

/// Whether a beat is near enough to the clip to give the swing its phase: after `BEAT_MARGIN`
/// and before `end`.
pub open spec fn near_clip(end: u64) -> spec_fn(u64) -> bool {
    |b: u64| bits::lt64(BEAT_MARGIN, b) && bits::lt64(b, end)
}

/// Keeps the beats near the clip.
pub fn beats_near_clip(beats: &[u64], end: u64) -> (out: Vec<u64>)
    ensures
        out@ == beats@.filter(near_clip(end)),
{
    let mut out: Vec<u64> = Vec::new();
    let mut i: usize = 0;
    proof {
        reveal(Seq::filter);
        assert(beats@.take(0) =~= Seq::<u64>::empty());
    }
    while i < beats.len()
        invariant
            i <= beats@.len(),
            out@ == beats@.take(i as int).filter(near_clip(end)),
        decreases beats@.len() - i,
    {
        proof {
            lists::lemma_filter_step(beats@, near_clip(end), i as int);
        }
        if f64_lt(BEAT_MARGIN, beats[i]) && f64_lt(beats[i], end) {
            out.push(beats[i]);
        }
        i += 1;
    }
    assert(beats@.take(i as int) =~= beats@);
    out
}

/// The clip in frames of audio, from the first up to the second: `start` and `end` (bit patterns
/// of doubles) truncated and limited to the audio. A clip that does not end before it starts
/// stays one.
pub fn clip_frames(start: u64, end: u64, total: usize) -> (clip: (usize, usize))
    ensures
        clip.0 == convert::truncated(start, total as int),
        clip.1 == convert::truncated(end, total as int),
        bits::le64(start, end) ==> clip.0 <= clip.1 <= total,
{
    proof {
        if bits::le64(start, end) {
            convert::law_conversion_is_monotone(start, end, total as int);
        }
    }
    let start: usize = convert::trunc(start);
    let end: usize = convert::trunc(end);
    (
        if start < total {
            start
        } else {
            total
        },
        if end < total {
            end
        } else {
            total
        },
    )
}

/// Frames are rendered in chunks of this many, in parallel.
pub const CHUNK: u64 = 24;

/// Where the chunk that starts at `done` ends.
pub open spec fn chunk_end(done: int, frame_count: int) -> int {
    if done + CHUNK < frame_count {
        done + CHUNK
    } else {
        frame_count
    }
}

/// The state of an export while frames are written.
pub struct ExportRun {
    pub frame_count: u64,
    /// Frames written, in whole chunks.
    pub done: u64,
    /// Why writing stopped.
    pub write_error: Option<String>,
}

impl ExportRun {
    pub open spec fn inv(&self) -> bool {
        self.done <= self.frame_count
    }

    /// An export of `frames` frames (the bit pattern of a double), the last of which may be cut
    /// short.
    pub fn new(frames: u64) -> (run: ExportRun)
        ensures
            run.inv(),
            run.frame_count == convert::raised(frames, u64::MAX as int),
            run.done == 0,
            run.write_error is None,
    {
        ExportRun { frame_count: convert::ceil(frames), done: 0, write_error: None }
    }

    /// The frames to render and write next, from the first up to the second; `None` when all are
    /// written or writing has failed.
    pub fn next_chunk(&self) -> (chunk: Option<(u64, u64)>)
        requires
            self.inv(),
        ensures
            chunk == (if self.write_error is None && self.done < self.frame_count {
                Some((self.done, chunk_end(self.done as int, self.frame_count as int) as u64))
            } else {
                None
            }),
    {
        if self.write_error.is_some() || self.done >= self.frame_count {
            return None;
        }
        let end: u64 = if CHUNK < self.frame_count - self.done {
            self.done + CHUNK
        } else {
            self.frame_count
        };
        Some((self.done, end))
    }

    /// All frames of the chunk up to `end` have been written.
    pub fn chunk_written(&mut self, end: u64)
        requires
            old(self).inv(),
            old(self).done < old(self).frame_count,
            end == chunk_end(old(self).done as int, old(self).frame_count as int),
        ensures
            final(self).inv(),
            final(self).done == end,
            final(self).frame_count == old(self).frame_count,
            final(self).write_error == old(self).write_error,
    {
        self.done = end;
    }

    /// A frame could not be written.
    pub fn write_failed(&mut self, error: &str)
        requires
            old(self).inv(),
        ensures
            final(self).inv(),
            final(self).done == old(self).done,
            final(self).frame_count == old(self).frame_count,
            final(self).write_error is Some,
            final(self).write_error->0@ == "ffmpeg pipe closed: "@ + error@,
    {
        self.write_error = Some(joined("ffmpeg pipe closed: ", error));
    }

    /// What comes of the export: a failure to write is told first, then a failure of ffmpeg,
    /// both with its last words; then frames that were never written.
    pub fn outcome(&self, success: bool, status: &str, tail: &str) -> (outcome: Result<(), String>)
        ensures
            self.write_error is Some ==> (outcome matches Err(e) && e@ == self.write_error->0@
                + "\n"@ + tail@),
            self.write_error is None && !success ==> (outcome matches Err(e) && e@
                == "ffmpeg exited with status "@ + status@ + "\n"@ + tail@),
            self.write_error is None && success && self.done < self.frame_count ==> (
            outcome matches Err(e) && e@ == "export ended early"@),
            self.write_error is None && success && self.done >= self.frame_count
                ==> outcome is Ok,
    {
        if let Some(error) = &self.write_error {
            let mut message: String = joined(error.as_str(), "\n");
            message.append(tail);
            return Err(message);
        }
        if !success {
            let mut message: String = status_message(status);
            message.append("\n");
            message.append(tail);
            return Err(message);
        }
        if self.done < self.frame_count {
            return Err("export ended early".to_string());
        }
        Ok(())
    }
}

/// Frames written after `chunks` chunks.
pub open spec fn done_after(chunks: nat, frame_count: int) -> int
    decreases chunks,
{
    if chunks == 0 {
        0
    } else {
        chunk_end(done_after((chunks - 1) as nat, frame_count), frame_count)
    }
}

/// The chunks cover the frames without a gap or an overlap: each starts where the one before it
/// ended, and after `n` of them the first `24 n` frames are written, or all.
pub proof fn law_chunks_cover_all_frames(chunks: nat, frame_count: int)
    requires
        frame_count >= 0,
    ensures
        done_after(chunks, frame_count) == (if chunks * CHUNK < frame_count {
            chunks * CHUNK
        } else {
            frame_count
        }),
    decreases chunks,
{
    if chunks > 0 {
        law_chunks_cover_all_frames((chunks - 1) as nat, frame_count);
    }
}

/// A note is taken over exactly if its track exists.
pub proof fn law_notes_on_known_tracks_are_kept(notes: Seq<VideoNote>, n_tracks: int, n: VideoNote)
    ensures
        notes.filter(on_known_track(n_tracks)).contains(n) <==> notes.contains(n) && n.track
            < n_tracks,
{
    lists::lemma_filter_elements(notes, on_known_track(n_tracks), n);
}

/// A beat is taken over exactly if it comes less than thirty seconds before the clip and before
/// `end`.
pub proof fn law_beats_near_the_clip_are_kept(beats: Seq<u64>, end: u64, b: u64)
    ensures
        beats.filter(near_clip(end)).contains(b) <==> beats.contains(b) && bits::lt64(
            0xc03e_0000_0000_0000,
            b,
        ) && bits::lt64(b, end),
{
    lists::lemma_filter_elements(beats, near_clip(end), b);
}

/// A chunk has 24 frames, or those that are left: it is never empty and never goes past the last
/// frame.
pub proof fn law_chunks_have_24_frames(done: int, frame_count: int)
    requires
        0 <= done < frame_count,
    ensures
        done < chunk_end(done, frame_count) <= frame_count,
        chunk_end(done, frame_count) - done <= 24,
        chunk_end(done, frame_count) < frame_count ==> chunk_end(done, frame_count) - done == 24,
{
}

} // verus!
