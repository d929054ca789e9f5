//! The engine's state and how each command changes it.

use vstd::prelude::*;
use std::sync::Arc;
use crate::audio::base64::to_base64;
use crate::audio::base64;
use crate::audio::decode;
use crate::audio::decode::SpectrogramData;
use crate::audio::playback;
use crate::audio::playback::{frame_at, position_at};
use crate::audio::stretch::StretchSeg;
use crate::bits;
use crate::bits::f64_clamp;

verus! {

/// 1.0 as the bit pattern of a double.
pub const RATE_ONE: u64 = 0x3ff0_0000_0000_0000;

/// 0.1 as the bit pattern of a double: the slowest rate.
pub const RATE_MIN: u64 = 0x3fb9_9999_9999_999a;

/// 2 as the bit pattern of a double: the fastest rate.
pub const RATE_MAX: u64 = 0x4000_0000_0000_0000;

/// A rate within its limits.
pub fn limited_rate(rate: u64) -> (limited: u64)
    ensures
        limited == bits::clamp64(rate, RATE_MIN, RATE_MAX),
{
    f64_clamp(rate, RATE_MIN, RATE_MAX)
}

/// The engine. The buffers hold interleaved samples: `original` as decoded, `warped` with the
/// stretches applied. Rate and durations are bit patterns of doubles.
pub struct AudioEngine<T> {
    pub sample_rate: u32,
    pub channels: usize,
    pub source_path: String,
    pub original: Arc<Vec<T>>,
    pub warped: Arc<Vec<T>>,
    pub stretches: Vec<StretchSeg>,
    pub playback_rate: u64,
    pub original_duration_secs: u64,
    pub warped_duration_secs: u64,
    pub warped_peaks: Vec<Vec<u32>>,
    /// The buffers belong to the source.
    pub pcm_ready: bool,
    /// Frame of `warped`, in units of 1/65536.
    pub position_fp: u64,
    pub is_playing: bool,
    /// Commands that need the samples may go ahead.
    pub pcm_signal: bool,
}

/// What an engine holds.
#[verifier::ext_equal]
#[verifier::reject_recursive_types(T)]
pub ghost struct EngineView<T> {
    pub sample_rate: u32,
    pub channels: usize,
    pub source_path: Seq<char>,
    pub original: Seq<T>,
    pub warped: Seq<T>,
    pub stretches: Seq<StretchSeg>,
    pub playback_rate: u64,
    pub original_duration_secs: u64,
    pub warped_duration_secs: u64,
    pub warped_peaks: Seq<Seq<u32>>,
    pub pcm_ready: bool,
    pub position_fp: u64,
    pub is_playing: bool,
    pub pcm_signal: bool,
}

impl<T> View for AudioEngine<T> {
    type V = EngineView<T>;

    open spec fn view(&self) -> EngineView<T> {
        EngineView {
            sample_rate: self.sample_rate,
            channels: self.channels,
            source_path: self.source_path@,
            original: self.original@,
            warped: self.warped@,
            stretches: self.stretches@,
            playback_rate: self.playback_rate,
            original_duration_secs: self.original_duration_secs,
            warped_duration_secs: self.warped_duration_secs,
            warped_peaks: decode::rows_view(self.warped_peaks@),
            pcm_ready: self.pcm_ready,
            position_fp: self.position_fp,
            is_playing: self.is_playing,
            pcm_signal: self.pcm_signal,
        }
    }
}

impl<T> EngineView<T> {
    /// There is at least one channel.
    pub open spec fn valid(self) -> bool {
        self.channels > 0
    }

    /// Length of the warped audio.
    pub open spec fn total_frames(self) -> int {
        self.warped.len() as int / self.channels as int
    }

    /// An engine that has just started.
    pub open spec fn fresh() -> EngineView<T> {
        EngineView {
            sample_rate: 44100,
            channels: 2,
            source_path: Seq::empty(),
            original: Seq::empty(),
            warped: Seq::empty(),
            stretches: Seq::empty(),
            playback_rate: RATE_ONE,
            original_duration_secs: 0,
            warped_duration_secs: 0,
            warped_peaks: Seq::empty(),
            pcm_ready: false,
            position_fp: 0,
            is_playing: false,
            pcm_signal: false,
        }
    }

    /// New stretches have taken effect, with the audio made with them; the position is `frame` of
    /// it, and the engine has stopped.
    pub open spec fn stretched(
        self,
        stretches: Seq<StretchSeg>,
        warped: Seq<T>,
        duration_secs: u64,
        peaks: Seq<Seq<u32>>,
        frame: usize,
    ) -> EngineView<T> {
        EngineView {
            position_fp: playback::position_of(frame),
            stretches,
            warped,
            warped_duration_secs: duration_secs,
            warped_peaks: peaks,
            is_playing: false,
            ..self
        }
    }

    /// Stretches have been set: `stretch` makes the audio, its duration and its peaks from the
    /// original, and nothing else.
    pub open spec fn set_to(
        self,
        stretches: Seq<StretchSeg>,
        stretch: spec_fn(Seq<T>, Seq<StretchSeg>) -> (Seq<T>, u64, Seq<Seq<u32>>),
        frame: usize,
    ) -> EngineView<T> {
        let made = stretch(self.original, stretches);
        self.stretched(stretches, made.0, made.1, made.2, frame)
    }

    /// A file has been loaded: nothing is stretched, the rate is 1, the position is the start.
    pub open spec fn loaded(
        self,
        path: Seq<char>,
        sample_rate: u32,
        channels: usize,
        duration_secs: u64,
        peaks: Seq<Seq<u32>>,
        samples: Option<Seq<T>>,
    ) -> EngineView<T> {
        let buffer = match samples {
            Some(s) => s,
            None => Seq::empty(),
        };
        EngineView {
            sample_rate,
            channels,
            source_path: path,
            original: buffer,
            warped: buffer,
            stretches: Seq::empty(),
            playback_rate: RATE_ONE,
            original_duration_secs: duration_secs,
            warped_duration_secs: duration_secs,
            warped_peaks: peaks,
            pcm_ready: samples is Some,
            position_fp: 0,
            is_playing: self.is_playing,
            pcm_signal: self.pcm_signal || samples is Some,
        }
    }

    /// Playback is stopped.
    pub open spec fn stopped(self) -> EngineView<T> {
        EngineView { is_playing: false, ..self }
    }

    /// A position at or past the end goes back to the start.
    pub open spec fn rewound(self) -> EngineView<T> {
        if playback::frame_of(self.position_fp) >= self.total_frames() {
            EngineView { position_fp: 0, ..self }
        } else {
            self
        }
    }
}

/// What comes of samples that were decoded in the background.
#[derive(Clone, Copy, PartialEq, Eq, Structural)]
pub enum PcmStep {
    /// Another file has been loaded since; they are dropped.
    Stale,
    /// They are in place.
    Ready,
    /// They are in place, and the stretches have to be applied to them.
    Restretch,
}

/// What comes of a request to play.
#[derive(Clone, Copy, PartialEq, Eq, Structural)]
pub enum PlayRequest {
    AlreadyPlaying,
    NoAudio,
    /// The samples are not there yet.
    Wait,
    Start,
}

/// What comes of a change of rate.
#[derive(Clone, Copy, PartialEq, Eq, Structural)]
pub enum RateStep {
    /// The rate is the same as before.
    Unchanged,
    /// The rate is set; nothing is playing.
    Stored,
    /// The rate is set; the stream is to be built again at this frame.
    Restart { frame: usize },
}

/// The message of a command that needs audio where there is none.
pub fn no_audio_message() -> (message: String)
    ensures
        message@ == "no audio loaded"@,
{
    "no audio loaded".to_string()
}

/// The message of a command that waited in vain.
pub fn cancelled_message() -> (message: String)
    ensures
        message@ == "Audio loading was cancelled"@,
{
    "Audio loading was cancelled".to_string()
}

impl<T> AudioEngine<T> {
    pub fn new() -> (engine: AudioEngine<T>)
        ensures
            engine@ == EngineView::<T>::fresh(),
            engine@.valid(),
    {
        let empty: Arc<Vec<T>> = Arc::new(Vec::new());
        let engine: AudioEngine<T> = AudioEngine {
            sample_rate: 44100,
            channels: 2,
            source_path: String::new(),
            original: Arc::clone(&empty),
            warped: empty,
            stretches: Vec::new(),
            playback_rate: RATE_ONE,
            original_duration_secs: 0,
            warped_duration_secs: 0,
            warped_peaks: Vec::new(),
            pcm_ready: false,
            position_fp: 0,
            is_playing: false,
            pcm_signal: false,
        };
        assert(engine@ =~= EngineView::<T>::fresh());
        engine
    }

    /// Loading begins: playback stops, and the samples are not to be used.
    pub fn begin_load(&mut self)
        ensures
            final(self)@ == (EngineView { is_playing: false, pcm_signal: false, ..old(self)@ }),
    {
        self.is_playing = false;
        self.pcm_signal = false;
        assert(self@ =~= EngineView { is_playing: false, pcm_signal: false, ..old(self)@ });
    }

    fn install(
        &mut self,
        path: String,
        sample_rate: u32,
        channels: usize,
        duration_secs: u64,
        peaks: Vec<Vec<u32>>,
        samples: Arc<Vec<T>>,
        ready: bool,
    )
        requires
            ready || samples@.len() == 0,
        ensures
            final(self)@ == old(self)@.loaded(
                path@,
                sample_rate,
                channels,
                duration_secs,
                decode::rows_view(peaks@),
                if ready { Some(samples@) } else { None },
            ),
    {
        self.sample_rate = sample_rate;
        self.channels = channels;
        self.source_path = path;
        self.original = Arc::clone(&samples);
        self.warped = samples;
        self.stretches = Vec::new();
        self.playback_rate = RATE_ONE;
        self.original_duration_secs = duration_secs;
        self.warped_duration_secs = duration_secs;
        self.warped_peaks = peaks;
        self.pcm_ready = ready;
        self.position_fp = 0;
        if ready {
            self.pcm_signal = true;
        }
        assert(self@ =~= old(self)@.loaded(
            path@,
            sample_rate,
            channels,
            duration_secs,
            decode::rows_view(peaks@),
            if ready { Some(samples@) } else { None },
        ));
    }

    /// A file has been decoded in a single pass: its samples are there.
    pub fn loaded_full(
        &mut self,
        path: String,
        sample_rate: u32,
        channels: usize,
        duration_secs: u64,
        peaks: Vec<Vec<u32>>,
        samples: Arc<Vec<T>>,
    )
        ensures
            final(self)@ == old(self)@.loaded(
                path@,
                sample_rate,
                channels,
                duration_secs,
                decode::rows_view(peaks@),
                Some(samples@),
            ),
    {
        self.install(path, sample_rate, channels, duration_secs, peaks, samples, true);
    }

    /// A file has been scanned: its samples are to be decoded in the background.
    pub fn loaded_scan(
        &mut self,
        path: String,
        sample_rate: u32,
        channels: usize,
        duration_secs: u64,
        peaks: Vec<Vec<u32>>,
    )
        ensures
            final(self)@ == old(self)@.loaded(
                path@,
                sample_rate,
                channels,
                duration_secs,
                decode::rows_view(peaks@),
                None,
            ),
    {
        let empty: Arc<Vec<T>> = Arc::new(Vec::new());
        self.install(path, sample_rate, channels, duration_secs, peaks, empty, false);
    }

    /// Samples of `path` have been decoded in the background.
    pub fn pcm_decoded(&mut self, path: &String, samples: Arc<Vec<T>>) -> (step: PcmStep)
        ensures
            step == PcmStep::Stale <==> old(self)@.source_path != path@,
            step == PcmStep::Ready <==> old(self)@.source_path == path@
                && old(self)@.stretches.len() == 0,
            step == PcmStep::Stale ==> final(self)@ == old(self)@,
            step != PcmStep::Stale ==> final(self)@ == (EngineView {
                original: samples@,
                warped: samples@,
                pcm_ready: true,
                pcm_signal: old(self)@.pcm_signal || step == PcmStep::Ready,
                ..old(self)@
            }),
    {
        if self.source_path != *path {
            return PcmStep::Stale;
        }
        self.original = Arc::clone(&samples);
        self.warped = samples;
        self.pcm_ready = true;
        if self.stretches.len() == 0 {
            self.pcm_signal = true;
            assert(self@ =~= EngineView {
                original: samples@,
                warped: samples@,
                pcm_ready: true,
                pcm_signal: true,
                ..old(self)@
            });
            PcmStep::Ready
        } else {
            assert(self@ =~= EngineView {
                original: samples@,
                warped: samples@,
                pcm_ready: true,
                ..old(self)@
            });
            PcmStep::Restretch
        }
    }

    /// The stretches have been applied to the samples of `path`. They are used unless another
    /// file has been loaded since; either way the samples may now be used.
    pub fn restretched(&mut self, path: &String, warped: Arc<Vec<T>>)
        ensures
            final(self)@ == (EngineView {
                warped: if old(self)@.source_path == path@ { warped@ } else { old(self)@.warped },
                pcm_signal: true,
                ..old(self)@
            }),
    {
        if self.source_path == *path {
            self.warped = warped;
        }
        self.pcm_signal = true;
        assert(self@ =~= EngineView {
            warped: if old(self)@.source_path == path@ { warped@ } else { old(self)@.warped },
            pcm_signal: true,
            ..old(self)@
        });
    }

    /// What stretches are to be applied to, if there is anything.
    pub fn stretch_source(&self) -> (source: Result<Arc<Vec<T>>, String>)
        ensures
            self@.original.len() == 0 ==> (source matches Err(e) && e@ == "no audio loaded"@),
            self@.original.len() > 0 ==> (source matches Ok(s) && s@ == self@.original),
    {
        if self.original.len() == 0 {
            Err(no_audio_message())
        } else {
            Ok(Arc::clone(&self.original))
        }
    }

    /// New stretches take effect, and the position moves to `frame` of the new audio. If the
    /// engine was playing it is stopped, and the stream is to be built again at the frame that
    /// is returned.
    pub fn commit_stretches(
        &mut self,
        stretches: Vec<StretchSeg>,
        warped: Arc<Vec<T>>,
        duration_secs: u64,
        peaks: Vec<Vec<u32>>,
        frame: usize,
    ) -> (restart: Option<usize>)
        ensures
            final(self)@ == old(self)@.stretched(
                stretches@,
                warped@,
                duration_secs,
                decode::rows_view(peaks@),
                frame,
            ),
            restart == (if old(self)@.is_playing {
                Some(playback::frame_of(playback::position_of(frame)))
            } else {
                None
            }),
    {
        self.position_fp = position_at(frame);
        self.stretches = stretches;
        self.warped = warped;
        self.warped_duration_secs = duration_secs;
        self.warped_peaks = peaks;
        let restart: Option<usize> = if self.is_playing {
            Some(frame_at(self.position_fp))
        } else {
            None
        };
        self.is_playing = false;
        assert(self@ =~= old(self)@.stretched(
            stretches@,
            warped@,
            duration_secs,
            decode::rows_view(peaks@),
            frame,
        ));
        restart
    }

    /// Sets the rate, within its limits; `same` says that it is close enough to the one in use.
    pub fn set_rate(&mut self, rate: u64, same: bool) -> (step: RateStep)
        ensures
            same ==> step == RateStep::Unchanged && final(self)@ == old(self)@,
            !same ==> final(self)@ == (EngineView {
                playback_rate: bits::clamp64(rate, RATE_MIN, RATE_MAX),
                is_playing: false,
                ..old(self)@
            }),
            !same ==> step == (if old(self)@.is_playing {
                RateStep::Restart { frame: playback::frame_of(old(self)@.position_fp) }
            } else {
                RateStep::Stored
            }),
    {
        if same {
            return RateStep::Unchanged;
        }
        self.playback_rate = limited_rate(rate);
        let step: RateStep = if self.is_playing {
            RateStep::Restart { frame: frame_at(self.position_fp) }
        } else {
            RateStep::Stored
        };
        self.is_playing = false;
        assert(self@ =~= EngineView {
            playback_rate: bits::clamp64(rate, RATE_MIN, RATE_MAX),
            is_playing: false,
            ..old(self)@
        });
        step
    }

    /// What comes of a request to play: nothing if it is playing, an error if no file has been
    /// loaded.
    pub fn play_request(&self) -> (request: PlayRequest)
        ensures
            request == (if self@.is_playing {
                PlayRequest::AlreadyPlaying
            } else if self@.source_path.len() == 0 {
                PlayRequest::NoAudio
            } else if !self@.pcm_signal {
                PlayRequest::Wait
            } else {
                PlayRequest::Start
            }),
    {
        if self.is_playing {
            PlayRequest::AlreadyPlaying
        } else if self.source_path.as_str().is_empty() {
            PlayRequest::NoAudio
        } else if !self.pcm_signal {
            PlayRequest::Wait
        } else {
            PlayRequest::Start
        }
    }

    /// The frame at which playback starts; a position at or past the end goes back to the start.
    pub fn start_frame(&mut self) -> (frame: usize)
        requires
            old(self)@.valid(),
        ensures
            final(self)@ == old(self)@.rewound(),
            frame == playback::frame_of(final(self)@.position_fp),
    {
        let total: usize = self.warped.len() / self.channels;
        if frame_at(self.position_fp) >= total {
            self.position_fp = 0;
            assert(self@ =~= EngineView { position_fp: 0, ..old(self)@ });
        }
        frame_at(self.position_fp)
    }

    /// A stream has been built and plays.
    pub fn stream_started(&mut self)
        ensures
            final(self)@ == (EngineView { is_playing: true, ..old(self)@ }),
    {
        self.is_playing = true;
        assert(self@ =~= EngineView { is_playing: true, ..old(self)@ });
    }

    /// Stops playback; returns the frame it has come to.
    pub fn pause(&mut self) -> (frame: usize)
        ensures
            final(self)@ == old(self)@.stopped(),
            frame == playback::frame_of(old(self)@.position_fp),
    {
        self.is_playing = false;
        assert(self@ =~= old(self)@.stopped());
        frame_at(self.position_fp)
    }

    /// Moves the position.
    pub fn seek(&mut self, frame: usize)
        ensures
            final(self)@ == (EngineView {
                position_fp: playback::position_of(frame),
                ..old(self)@
            }),
    {
        self.position_fp = position_at(frame);
        assert(self@ =~= EngineView { position_fp: playback::position_of(frame), ..old(self)@ });
    }
}

/// Pausing and playing again goes on where it stopped, unless that was at the end.
pub proof fn law_playing_resumes_after_a_pause<T>(engine: EngineView<T>)
    requires
        engine.valid(),
        playback::frame_of(engine.position_fp) < engine.total_frames(),
    ensures
        engine.stopped().rewound() == engine.stopped(),
        engine.stopped().rewound().position_fp == engine.position_fp,
{
}

/// Playback never starts past the end, and starts at 0 where there is nothing to play.
pub proof fn law_playing_starts_within_the_audio<T>(engine: EngineView<T>)
    requires
        engine.valid(),
    ensures
        playback::frame_of(engine.rewound().position_fp) < engine.total_frames()
            || playback::frame_of(engine.rewound().position_fp) == 0,
{
}

/// Loading a file leaves nothing of the file before it: two engines that are both not playing
/// are the same once the same file has been decoded into them.
pub proof fn law_loading_forgets<T>(
    a: EngineView<T>,
    b: EngineView<T>,
    path: Seq<char>,
    sample_rate: u32,
    channels: usize,
    duration_secs: u64,
    peaks: Seq<Seq<u32>>,
    samples: Seq<T>,
)
    requires
        !a.is_playing,
        !b.is_playing,
    ensures
        a.loaded(path, sample_rate, channels, duration_secs, peaks, Some(samples)) == b.loaded(
            path,
            sample_rate,
            channels,
            duration_secs,
            peaks,
            Some(samples),
        ),
{
}

/// Stretches always start from the original: setting some and then others leaves an engine as
/// the others alone do, so setting the same ones twice is setting them once, and the original
/// stays as it is. `first_frame` is where the position was moved in between.
pub proof fn law_last_stretches_count<T>(
    engine: EngineView<T>,
    first: Seq<StretchSeg>,
    second: Seq<StretchSeg>,
    stretch: spec_fn(Seq<T>, Seq<StretchSeg>) -> (Seq<T>, u64, Seq<Seq<u32>>),
    first_frame: usize,
    frame: usize,
)
    ensures
        engine.set_to(first, stretch, first_frame).set_to(second, stretch, frame) == engine.set_to(
            second,
            stretch,
            frame,
        ),
        engine.set_to(first, stretch, first_frame).original == engine.original,
        engine.set_to(first, stretch, first_frame).original_duration_secs
            == engine.original_duration_secs,
{
}

/// A spectrogram layer as text.
pub struct SpecLayerOut {
    /// Base64 of the layer's bytes.
    pub data: String,
    pub bins: usize,
}

/// What loading a file answers.
pub struct LoadResult {
    pub peaks: Vec<Vec<u32>>,
    pub bass_peaks: Vec<Vec<u32>>,
    pub duration: u64,
    pub sample_rate: u32,
    pub channels: usize,
    pub spec_cols: usize,
    pub spec_cols_per_sec: u32,
    pub spec_midi_lo: u8,
    pub spec_midi_hi: u8,
    pub spec_raw: SpecLayerOut,
    pub spec_salience: SpecLayerOut,
}

/// What setting the stretches answers. `cursor_orig` is the position in seconds of the
/// original.
pub struct SetStretchesResult {
    pub peaks: Vec<Vec<u32>>,
    pub bass_peaks: Vec<Vec<u32>>,
    pub warped_duration: u64,
    pub cursor_orig: u64,
}

fn copy_rows(rows: &Vec<Vec<u32>>) -> (copy: Vec<Vec<u32>>)
    ensures
        decode::rows_view(copy@) == decode::rows_view(rows@),
{
    let mut copy: Vec<Vec<u32>> = Vec::new();
    let mut i: usize = 0;
    while i < rows.len()
        invariant
            i <= rows@.len(),
            decode::rows_view(copy@) == decode::rows_view(rows@).take(i as int),
        decreases rows@.len() - i,
    {
        let ghost before = copy@;
        copy.push(vstd::slice::slice_to_vec(rows[i].as_slice()));
        proof {
            let now = decode::rows_view(copy@);
            assert(decode::rows_view(before).len() == i);
            assert forall|k: int| 0 <= k < i implies #[trigger] now[k] == decode::rows_view(
                rows@,
            )[k] by {
                assert(now[k] == decode::rows_view(before)[k]);
            }
            assert(now =~= decode::rows_view(rows@).take(i + 1));
        }
        i += 1;
    }
    assert(decode::rows_view(copy@) =~= decode::rows_view(rows@));
    copy
}

impl SetStretchesResult {
    /// The answer of an engine whose stretches have been set: the peaks and the duration that
    /// took effect with them, with the bass peaks of the same audio and the position that was
    /// kept, in seconds of the original.
    pub fn new<T>(engine: &AudioEngine<T>, bass_peaks: Vec<Vec<u32>>, cursor_orig: u64) -> (result:
        SetStretchesResult)
        ensures
            decode::rows_view(result.peaks@) == engine@.warped_peaks,
            result.bass_peaks == bass_peaks,
            result.warped_duration == engine@.warped_duration_secs,
            result.cursor_orig == cursor_orig,
    {
        SetStretchesResult {
            peaks: copy_rows(&engine.warped_peaks),
            bass_peaks,
            warped_duration: engine.warped_duration_secs,
            cursor_orig,
        }
    }
}

impl LoadResult {
    /// The answer for a file with this analysis.
    pub fn new(
        peaks: Vec<Vec<u32>>,
        bass_peaks: Vec<Vec<u32>>,
        duration: u64,
        sample_rate: u32,
        channels: usize,
        spec: &SpectrogramData,
    ) -> (result: LoadResult)
        ensures
            result.peaks == peaks,
            result.bass_peaks == bass_peaks,
            result.duration == duration,
            result.sample_rate == sample_rate,
            result.channels == channels,
            result.spec_cols == spec.cols,
            result.spec_cols_per_sec == spec.cols_per_sec,
            result.spec_midi_lo == spec.midi_lo,
            result.spec_midi_hi == spec.midi_hi,
            result.spec_raw.data@ == base64::base64_chars(spec.raw.bytes@),
            result.spec_raw.bins == spec.raw.bins,
            result.spec_salience.data@ == base64::base64_chars(spec.salience.bytes@),
            result.spec_salience.bins == spec.salience.bins,
    {
        LoadResult {
            peaks,
            bass_peaks,
            duration,
            sample_rate,
            channels,
            spec_cols: spec.cols,
            spec_cols_per_sec: spec.cols_per_sec,
            spec_midi_lo: spec.midi_lo,
            spec_midi_hi: spec.midi_hi,
            spec_raw: SpecLayerOut {
                data: to_base64(spec.raw.bytes.as_slice()),
                bins: spec.raw.bins,
            },
            spec_salience: SpecLayerOut {
                data: to_base64(spec.salience.bytes.as_slice()),
                bins: spec.salience.bins,
            },
        }
    }
}

/// Loading takes over everything from the new file, whether its samples come with it or later:
/// path, sample rate, channels, both durations and peaks are the file's, nothing is stretched, the
/// rate is 1 and the position is the start. Samples are there, and may be used, exactly if they
/// came.
pub proof fn law_loading_takes_over_the_file<T>(
    engine: EngineView<T>,
    path: Seq<char>,
    sample_rate: u32,
    channels: usize,
    duration_secs: u64,
    peaks: Seq<Seq<u32>>,
    samples: Option<Seq<T>>,
)
    ensures
        ({
            let after = engine.loaded(path, sample_rate, channels, duration_secs, peaks, samples);
            &&& after.source_path == path
            &&& after.sample_rate == sample_rate
            &&& after.channels == channels
            &&& after.original_duration_secs == duration_secs
            &&& after.warped_duration_secs == duration_secs
            &&& after.warped_peaks == peaks
            &&& after.stretches.len() == 0
            &&& after.playback_rate == 0x3ff0_0000_0000_0000
            &&& after.position_fp == 0
            &&& after.warped == after.original
            &&& samples matches Some(s) ==> after.original == s && after.pcm_ready
                && after.pcm_signal
            &&& samples is None ==> after.original.len() == 0 && !after.pcm_ready
                && after.pcm_signal == engine.pcm_signal
            &&& after.is_playing == engine.is_playing
        }),
{
}

/// Scanning a file leaves nothing of the file before it either: two engines that are not playing
/// and agree on whether samples may be used are the same once the same file has been scanned.
pub proof fn law_scanning_forgets<T>(
    a: EngineView<T>,
    b: EngineView<T>,
    path: Seq<char>,
    sample_rate: u32,
    channels: usize,
    duration_secs: u64,
    peaks: Seq<Seq<u32>>,
)
    requires
        !a.is_playing,
        !b.is_playing,
        a.pcm_signal == b.pcm_signal,
    ensures
        a.loaded(path, sample_rate, channels, duration_secs, peaks, None) == b.loaded(
            path,
            sample_rate,
            channels,
            duration_secs,
            peaks,
            None,
        ),
{
}

/// New stretches change what depends on them and nothing else: the audio, its duration, its peaks
/// and the position are the given ones, the engine has stopped, and the file, its samples and the
/// rate stay.
pub proof fn law_stretching_changes_the_warped_audio_only<T>(
    engine: EngineView<T>,
    stretches: Seq<StretchSeg>,
    warped: Seq<T>,
    duration_secs: u64,
    peaks: Seq<Seq<u32>>,
    frame: usize,
)
    requires
        frame < 0x1_0000_0000_0000,
    ensures
        ({
            let after = engine.stretched(stretches, warped, duration_secs, peaks, frame);
            &&& after.stretches == stretches
            &&& after.warped == warped
            &&& after.warped_duration_secs == duration_secs
            &&& after.warped_peaks == peaks
            &&& after.position_fp == frame * 65536
            &&& !after.is_playing
            &&& after.sample_rate == engine.sample_rate
            &&& after.channels == engine.channels
            &&& after.source_path == engine.source_path
            &&& after.original == engine.original
            &&& after.original_duration_secs == engine.original_duration_secs
            &&& after.playback_rate == engine.playback_rate
            &&& after.pcm_ready == engine.pcm_ready
            &&& after.pcm_signal == engine.pcm_signal
        }),
{
    playback::law_position_counts_frames(frame);
}

/// Starting to play changes nothing but the position, and that only at or past the end of the
/// audio, from where it goes back to the start. Stopping changes nothing but that.
pub proof fn law_starting_keeps_the_engine<T>(engine: EngineView<T>)
    requires
        engine.channels > 0,
    ensures
        ({
            let frames = engine.warped.len() as int / engine.channels as int;
            let after = engine.rewound();
            &&& engine.position_fp as int / 65536 < frames ==> after == engine
            &&& engine.position_fp as int / 65536 >= frames && engine.position_fp as int / 65536
                <= usize::MAX ==> after.position_fp == 0
            &&& after.warped == engine.warped && after.original == engine.original
            &&& after.sample_rate == engine.sample_rate && after.channels == engine.channels
            &&& after.source_path == engine.source_path && after.stretches == engine.stretches
            &&& after.playback_rate == engine.playback_rate
            &&& after.original_duration_secs == engine.original_duration_secs
            &&& after.warped_duration_secs == engine.warped_duration_secs
            &&& after.warped_peaks == engine.warped_peaks
            &&& after.pcm_ready == engine.pcm_ready && after.pcm_signal == engine.pcm_signal
            &&& after.is_playing == engine.is_playing
        }),
        ({
            let after = engine.stopped();
            &&& !after.is_playing
            &&& after.position_fp == engine.position_fp
            &&& after.warped == engine.warped && after.original == engine.original
            &&& after.sample_rate == engine.sample_rate && after.channels == engine.channels
            &&& after.source_path == engine.source_path && after.stretches == engine.stretches
            &&& after.playback_rate == engine.playback_rate
            &&& after.original_duration_secs == engine.original_duration_secs
            &&& after.warped_duration_secs == engine.warped_duration_secs
            &&& after.warped_peaks == engine.warped_peaks
            &&& after.pcm_ready == engine.pcm_ready && after.pcm_signal == engine.pcm_signal
        }),
{
}

/// A new engine holds no audio and has nothing to play.
pub proof fn law_new_engine_is_empty<T>()
    ensures
        ({
            let engine = EngineView::<T>::fresh();
            &&& engine.source_path.len() == 0
            &&& engine.original.len() == 0 && engine.warped.len() == 0
            &&& engine.stretches.len() == 0 && engine.warped_peaks.len() == 0
            &&& engine.playback_rate == 0x3ff0_0000_0000_0000
            &&& engine.original_duration_secs == 0 && engine.warped_duration_secs == 0
            &&& engine.position_fp == 0
            &&& !engine.is_playing && !engine.pcm_ready && !engine.pcm_signal
            &&& engine.sample_rate == 44100 && engine.channels == 2
        }),
{
}

/// What an engine is said to hold is what its fields hold.
pub proof fn law_view_shows_the_fields<T>(engine: AudioEngine<T>)
    ensures
        engine@.sample_rate == engine.sample_rate,
        engine@.channels == engine.channels,
        engine@.source_path == engine.source_path@,
        engine@.original == engine.original@,
        engine@.warped == engine.warped@,
        engine@.stretches == engine.stretches@,
        engine@.playback_rate == engine.playback_rate,
        engine@.original_duration_secs == engine.original_duration_secs,
        engine@.warped_duration_secs == engine.warped_duration_secs,
        engine@.warped_peaks.len() == engine.warped_peaks@.len(),
        forall|c: int|
            0 <= c < engine.warped_peaks@.len() ==> #[trigger] engine@.warped_peaks[c]
                == engine.warped_peaks@[c]@,
        engine@.pcm_ready == engine.pcm_ready,
        engine@.position_fp == engine.position_fp,
        engine@.is_playing == engine.is_playing,
        engine@.pcm_signal == engine.pcm_signal,
{
}

} // verus!
