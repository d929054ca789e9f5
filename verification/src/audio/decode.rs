//! Decoded audio and what is derived from it.

use vstd::prelude::*;
use crate::text::joined;

verus! {

/// Interleaved samples, as bit patterns of singles.
pub struct DecodedAudio {
    pub samples: Vec<u32>,
    pub channels: usize,
    pub sample_rate: u32,
}

/// What a `DecodedAudio` holds.
#[verifier::ext_equal]
pub ghost struct AudioView {
    pub samples: Seq<u32>,
    pub channels: int,
    pub sample_rate: int,
}

impl View for DecodedAudio {
    type V = AudioView;

    open spec fn view(&self) -> AudioView {
        AudioView {
            samples: self.samples@,
            channels: self.channels as int,
            sample_rate: self.sample_rate as int,
        }
    }
}

impl DecodedAudio {
    /// Number of whole frames; the duration in seconds is this over the sample rate.
    pub fn num_frames(&self) -> (frames: usize)
        requires
            self.channels > 0,
        ensures
            frames == self.samples@.len() / self.channels as nat,
    {
        self.samples.len() / self.channels
    }
}

/// One spectrogram layer on the shared semitone grid. The bytes map decibels linearly; the
/// byte of bin `b` in column `c` stands at `c * bins + b`, and bin 0 is the lowest pitch.
pub struct SpecLayer {
    pub bytes: Vec<u8>,
    pub bins: usize,
}

/// What a `SpecLayer` holds.
#[verifier::ext_equal]
pub ghost struct LayerView {
    pub bytes: Seq<u8>,
    pub bins: int,
}

impl View for SpecLayer {
    type V = LayerView;

    open spec fn view(&self) -> LayerView {
        LayerView { bytes: self.bytes@, bins: self.bins as int }
    }
}

/// Both spectrogram layers. `cols_per_sec` is the bit pattern of a single.
pub struct SpectrogramData {
    pub cols: usize,
    pub cols_per_sec: u32,
    pub midi_lo: u8,
    pub midi_hi: u8,
    pub raw: SpecLayer,
    pub salience: SpecLayer,
}

/// What a `SpectrogramData` holds.
#[verifier::ext_equal]
pub ghost struct SpectrogramView {
    pub cols: int,
    pub cols_per_sec: u32,
    pub midi_lo: u8,
    pub midi_hi: u8,
    pub raw: LayerView,
    pub salience: LayerView,
}

impl View for SpectrogramData {
    type V = SpectrogramView;

    open spec fn view(&self) -> SpectrogramView {
        SpectrogramView {
            cols: self.cols as int,
            cols_per_sec: self.cols_per_sec,
            midi_lo: self.midi_lo,
            midi_hi: self.midi_hi,
            raw: self.raw@,
            salience: self.salience@,
        }
    }
}

/// Waveform peaks, bass-onset peaks and spectrogram of a file. `duration_secs` is the bit
/// pattern of a double, the peaks are bit patterns of singles, one row per channel.
pub struct AudioMeta {
    pub channels: usize,
    pub sample_rate: u32,
    pub duration_secs: u64,
    pub peaks: Vec<Vec<u32>>,
    pub bass_peaks: Vec<Vec<u32>>,
    pub spectrogram: SpectrogramData,
}

/// What an `AudioMeta` holds.
#[verifier::ext_equal]
pub ghost struct MetaView {
    pub channels: int,
    pub sample_rate: int,
    pub duration_secs: u64,
    pub peaks: Seq<Seq<u32>>,
    pub bass_peaks: Seq<Seq<u32>>,
    pub spectrogram: SpectrogramView,
}

/// The rows of a table, by their contents.
pub open spec fn rows_view(rows: Seq<Vec<u32>>) -> Seq<Seq<u32>> {
    Seq::new(rows.len(), |c: int| rows[c]@)
}

impl View for AudioMeta {
    type V = MetaView;

    open spec fn view(&self) -> MetaView {
        MetaView {
            channels: self.channels as int,
            sample_rate: self.sample_rate as int,
            duration_secs: self.duration_secs,
            peaks: rows_view(self.peaks@),
            bass_peaks: rows_view(self.bass_peaks@),
            spectrogram: self.spectrogram@,
        }
    }
}

/// Where the decoded samples of a file are cached.
pub fn cache_path(audio_path: &str) -> (path: String)
    ensures
        path@ == audio_path@ + ".f32pcm"@,
{
    joined(audio_path, ".f32pcm")
}

/// Where the sample cache is written before it replaces the old one.
pub fn cache_tmp_path(audio_path: &str) -> (path: String)
    ensures
        path@ == audio_path@ + ".f32pcm.tmp"@,
{
    joined(audio_path, ".f32pcm.tmp")
}

/// Where the peaks and the spectrogram of a file are cached.
pub fn peaks_cache_path(audio_path: &str) -> (path: String)
    ensures
        path@ == audio_path@ + ".peaks"@,
{
    joined(audio_path, ".peaks")
}

/// Where the peaks cache is written before it replaces the old one.
pub fn peaks_cache_tmp_path(audio_path: &str) -> (path: String)
    ensures
        path@ == audio_path@ + ".peaks.tmp"@,
{
    joined(audio_path, ".peaks.tmp")
}

/// A cache is fresh if both files exist and the cache was modified after its source.
pub open spec fn fresh(audio_mtime: Option<i128>, cache_mtime: Option<i128>) -> bool {
    audio_mtime is Some && cache_mtime is Some && cache_mtime->0 > audio_mtime->0
}

/// Whether the cached samples may be used. The times of modification are counted from one
/// epoch; a file that cannot be examined has none.
pub fn pcm_cache_is_fresh(audio_mtime: Option<i128>, cache_mtime: Option<i128>) -> (yes: bool)
    ensures
        yes == fresh(audio_mtime, cache_mtime),
{
    match (audio_mtime, cache_mtime) {
        (Some(audio), Some(cache)) => cache > audio,
        _ => false,
    }
}

/// Whether the cached peaks may be used.
pub fn peaks_cache_is_fresh(audio_mtime: Option<i128>, cache_mtime: Option<i128>) -> (yes: bool)
    ensures
        yes == fresh(audio_mtime, cache_mtime),
{
    pcm_cache_is_fresh(audio_mtime, cache_mtime)
}

/// What a file says of its default track.
pub struct TrackInfo {
    pub id: u32,
    pub channels: Option<usize>,
    pub sample_rate: Option<u32>,
    pub n_frames: Option<u64>,
}

/// What is needed of a track.
pub struct TrackParams {
    pub id: u32,
    pub channels: usize,
    pub sample_rate: u32,
}

/// The parameters of a track, or what is missing: the track itself, its channels or its
/// sample rate, in this order.
pub fn track_params(track: &Option<TrackInfo>) -> (params: Result<TrackParams, String>)
    ensures
        match (track, params) {
            (None, r) => r matches Err(e) && e@ == "no audio track"@,
            (Some(t), r) => if t.channels is None {
                r matches Err(e) && e@ == "no channel info"@
            } else if t.sample_rate is None {
                r matches Err(e) && e@ == "no sample rate"@
            } else {
                r == Ok::<TrackParams, String>(
                    TrackParams {
                        id: t.id,
                        channels: t.channels->0,
                        sample_rate: t.sample_rate->0,
                    },
                )
            },
        },
{
    match track {
        None => Err("no audio track".to_string()),
        Some(t) => match (t.channels, t.sample_rate) {
            (None, _) => Err("no channel info".to_string()),
            (_, None) => Err("no sample rate".to_string()),
            (Some(channels), Some(sample_rate)) => Ok(
                TrackParams { id: t.id, channels, sample_rate },
            ),
        },
    }
}

/// Size of a track's samples in bytes once decoded, four bytes each; `None` if the track, its
/// length or its channels are unknown.
pub fn estimated_pcm_bytes(track: &Option<TrackInfo>) -> (bytes: Option<usize>)
    requires
        track matches Some(t) ==> (t.n_frames is Some && t.channels is Some ==> t.n_frames->0
            <= usize::MAX && t.n_frames->0 * t.channels->0 * 4 <= usize::MAX),
    ensures
        match track {
            Some(t) => if t.n_frames is Some && t.channels is Some {
                bytes is Some && bytes->0 == t.n_frames->0 * t.channels->0 * 4
            } else {
                bytes is None
            },
            None => bytes is None,
        },
{
    match track {
        None => None,
        Some(t) => match (t.n_frames, t.channels) {
            (Some(n), Some(channels)) => Some(n as usize * channels * 4),
            _ => None,
        },
    }
}

/// Files below this size are decoded in a single pass that keeps the samples.
pub const SINGLE_PASS_THRESHOLD: usize = 524288000;

/// Whether a file is decoded in a single pass: only if its size is known and small enough.
pub fn use_single_pass(estimate: Option<usize>) -> (yes: bool)
    ensures
        yes == (estimate is Some && estimate->0 < SINGLE_PASS_THRESHOLD),
{
    match estimate {
        Some(bytes) => bytes < SINGLE_PASS_THRESHOLD,
        None => false,
    }
}

/// What came of asking for the next packet.
pub enum PacketEvent {
    Packet { track_id: u32 },
    ResetRequired,
    IoError,
    Failed,
}

/// What came of decoding a packet.
pub enum DecodeEvent {
    Decoded,
    DecodeError,
    Failed,
}

/// What a decoding run does next.
pub enum RunStep {
    /// Use what was just obtained: decode the packet, or take its samples.
    Use,
    /// Go on with the next packet.
    Skip,
    /// All packets have been seen.
    Finish,
    /// Give up with the error.
    Fail,
}

/// Packets of other tracks and demands for a reset are passed over; the end of the input shows
/// as an input error.
pub fn on_packet(event: &PacketEvent, track_id: u32) -> (step: RunStep)
    ensures
        step == (match *event {
            PacketEvent::Packet { track_id: id } => if id == track_id {
                RunStep::Use
            } else {
                RunStep::Skip
            },
            PacketEvent::ResetRequired => RunStep::Skip,
            PacketEvent::IoError => RunStep::Finish,
            PacketEvent::Failed => RunStep::Fail,
        }),
{
    match event {
        PacketEvent::Packet { track_id: id } => if *id == track_id {
            RunStep::Use
        } else {
            RunStep::Skip
        },
        PacketEvent::ResetRequired => RunStep::Skip,
        PacketEvent::IoError => RunStep::Finish,
        PacketEvent::Failed => RunStep::Fail,
    }
}

/// A packet that is damaged is passed over; any other failure ends the run.
pub fn on_decoded(event: &DecodeEvent) -> (step: RunStep)
    ensures
        step == (match *event {
            DecodeEvent::Decoded => RunStep::Use,
            DecodeEvent::DecodeError => RunStep::Skip,
            DecodeEvent::Failed => RunStep::Fail,
        }),
{
    match event {
        DecodeEvent::Decoded => RunStep::Use,
        DecodeEvent::DecodeError => RunStep::Skip,
        DecodeEvent::Failed => RunStep::Fail,
    }
}

/// Whether a packet needs a new buffer: there is none yet, or it has more frames than fit.
pub fn needs_buffer(capacity: Option<usize>, frames: usize) -> (yes: bool)
    ensures
        yes == (capacity is None || frames > capacity->0),
{
    match capacity {
        None => true,
        Some(c) => frames > c,
    }
}

/// A cache counts only if it was written after its source was last changed: touching the source,
/// or losing either file, makes it stale.
pub proof fn law_changed_sources_make_caches_stale(source: i128, cache: i128)
    ensures
        fresh(Some(source), Some(cache)) <==> source < cache,
        !fresh(None, Some(cache)),
        !fresh(Some(source), None),
        !fresh(None, None),
{
}

/// What decoded audio, spectrograms and analyses are said to hold is what their fields hold.
pub proof fn law_views_show_the_fields(audio: DecodedAudio, meta: AudioMeta, c: int)
    ensures
        audio@.samples == audio.samples@,
        audio@.channels == audio.channels,
        audio@.sample_rate == audio.sample_rate,
        meta@.channels == meta.channels,
        meta@.sample_rate == meta.sample_rate,
        meta@.duration_secs == meta.duration_secs,
        meta@.peaks.len() == meta.peaks@.len(),
        meta@.bass_peaks.len() == meta.bass_peaks@.len(),
        0 <= c < meta.peaks@.len() ==> meta@.peaks[c] == meta.peaks@[c]@,
        0 <= c < meta.bass_peaks@.len() ==> meta@.bass_peaks[c] == meta.bass_peaks@[c]@,
        meta@.spectrogram.cols == meta.spectrogram.cols,
        meta@.spectrogram.cols_per_sec == meta.spectrogram.cols_per_sec,
        meta@.spectrogram.midi_lo == meta.spectrogram.midi_lo,
        meta@.spectrogram.midi_hi == meta.spectrogram.midi_hi,
        meta@.spectrogram.raw.bytes == meta.spectrogram.raw.bytes@,
        meta@.spectrogram.raw.bins == meta.spectrogram.raw.bins,
        meta@.spectrogram.salience.bytes == meta.spectrogram.salience.bytes@,
        meta@.spectrogram.salience.bins == meta.spectrogram.salience.bins,
{
}

} // verus!
