//! Decoding runs: what is done with each packet of decoded samples, and what comes out at the
//! end.

use vstd::prelude::*;
use crate::audio::decode::{AudioMeta, DecodedAudio, SpectrogramData};
#[allow(unused_imports)]
use crate::audio::decode::{AudioView, LayerView, MetaView, SpectrogramView};
use crate::audio::decode;
use crate::audio::peaks;
use crate::audio::peaks::{chunk_frames, PeakScan};
use crate::audio::peaks_cache;
use crate::audio::stft;
use crate::audio::stft::{StftAccumulator, MIDI_HI, MIDI_LO, RAW_BINS, SAL_BINS};
use crate::bits;

verus! {

/// Decides when progress is reported: each time another `interval` has been done, if it is
/// known how much there is to do.
pub struct Progress {
    pub expected: usize,
    pub interval: usize,
    pub next: usize,
}

impl Progress {
    pub fn new(expected: usize, interval: usize) -> (progress: Progress)
        ensures
            progress.expected == expected,
            progress.interval == interval,
            progress.next == interval,
    {
        Progress { expected, interval, next: interval }
    }

    /// Says whether to report now that `done` is done.
    pub fn advance(&mut self, done: usize) -> (report: bool)
        requires
            done + old(self).interval <= usize::MAX,
        ensures
            report == (old(self).expected > 0 && done >= old(self).next),
            final(self).expected == old(self).expected,
            final(self).interval == old(self).interval,
            final(self).next == (if report { done + old(self).interval } else {
                old(self).next as int
            }),
    {
        if self.expected > 0 && done >= self.next {
            self.next = done + self.interval;
            true
        } else {
            false
        }
    }
}

/// Frames between two reports of a scan: four seconds, at least one.
pub fn scan_interval(sample_rate: u32) -> (interval: usize)
    requires
        4 * sample_rate <= usize::MAX,
    ensures
        interval == (if sample_rate == 0 { 1 } else { 4 * sample_rate as int }),
{
    if sample_rate == 0 {
        1
    } else {
        4 * sample_rate as usize
    }
}

/// Samples between two reports of a full decode: two seconds, at least one.
pub fn decode_interval(sample_rate: u32, channels: usize) -> (interval: usize)
    requires
        2 * sample_rate * channels <= usize::MAX,
        2 * sample_rate <= usize::MAX,
    ensures
        interval == (if sample_rate == 0 || channels == 0 { 1 } else {
            2 * sample_rate * channels
        }),
{
    assert(2 * sample_rate * channels == 0 <==> (sample_rate == 0 || channels == 0))
        by (nonlinear_arith);
    let interval: usize = sample_rate as usize * 2 * channels;
    if interval > 1 {
        interval
    } else {
        1
    }
}

/// The frames `f` before `n` with which a run of `size` frames ends, when `start` frames went
/// before.
pub open spec fn ends_among(start: int, size: int, n: nat) -> Seq<usize>
    decreases n,
{
    if n == 0 {
        Seq::empty()
    } else {
        let before = ends_among(start, size, (n - 1) as nat);
        if (start + n) % size == 0 {
            before.push((n - 1) as usize)
        } else {
            before
        }
    }
}

/// The analysis windows that fall due within the first `n` samples of `mono`.
pub open spec fn windows_among(
    window: Seq<u32>,
    mono: Seq<u32>,
    start: int,
    hop: int,
    n: nat,
) -> Seq<Seq<u32>>
    decreases n,
{
    if n == 0 {
        Seq::empty()
    } else {
        let before = windows_among(window, mono, start, hop, (n - 1) as nat);
        if (start + n) % hop == 0 {
            before.push(stft::slide(window, mono.take(n as int)))
        } else {
            before
        }
    }
}

/// What is left to do for a packet: `chunk_ends` are the frames that complete a chunk, at
/// which the bass energy is taken; each of `windows` wants a spectrogram column.
pub struct PacketWork {
    pub chunk_ends: Vec<usize>,
    pub windows: Vec<Vec<u32>>,
}

/// What an analysis takes: a packet of samples, with the mean of the samples of each frame, or the
/// column of a window.
pub ghost enum AnalysisStep {
    Packet { samples: Seq<u32>, mono: Seq<u32> },
    Column { raw: Seq<u8>, salience: Seq<u8> },
}

/// A packet.
pub open spec fn packet(samples: Seq<u32>, mono: Seq<u32>) -> AnalysisStep {
    AnalysisStep::Packet { samples, mono }
}

/// A column.
pub open spec fn column(raw: Seq<u8>, salience: Seq<u8>) -> AnalysisStep {
    AnalysisStep::Column { raw, salience }
}

/// Peaks and analysis windows of a stream of packets.
pub struct Analyzer {
    channels: usize,
    sample_rate: u32,
    peaks: PeakScan,
    stft: StftAccumulator,
    owed: usize,
}

impl View for Analyzer {
    type V = Seq<u32>;

    /// The interleaved samples of the frames analysed so far.
    closed spec fn view(&self) -> Seq<u32> {
        self.peaks@
    }
}

impl Analyzer {
    pub closed spec fn channel_count(&self) -> int {
        self.channels as int
    }

    pub closed spec fn rate(&self) -> int {
        self.sample_rate as int
    }

    /// Frames analysed so far.
    pub open spec fn frames(&self) -> int {
        self@.len() as int / self.channel_count()
    }

    /// The analysis window.
    pub closed spec fn window_view(&self) -> Seq<u32> {
        self.stft.window_view()
    }

    /// Number of windows handed out whose columns have not been added.
    pub closed spec fn owing(&self) -> int {
        self.owed as int
    }

    /// Bytes of the raw columns so far.
    pub closed spec fn raw(&self) -> Seq<u8> {
        self.stft.raw()
    }

    /// Bytes of the salience columns so far.
    pub closed spec fn salience(&self) -> Seq<u8> {
        self.stft.salience()
    }

    /// An analysis that has taken nothing yet.
    pub open spec fn fresh(&self, channels: int, sample_rate: int) -> bool {
        &&& self@ == Seq::<u32>::empty()
        &&& self.channel_count() == channels
        &&& self.rate() == sample_rate
        &&& self.window_view() == Seq::new(stft::STFT_SIZE as nat, |i: int| 0u32)
        &&& self.owing() == 0
        &&& self.raw() == Seq::<u8>::empty()
        &&& self.salience() == Seq::<u8>::empty()
    }

    /// The ends of the chunks that end within a packet, as frames of the packet.
    pub open spec fn ends_in(&self, mono: Seq<u32>) -> Seq<usize> {
        ends_among(self.frames(), peaks::chunk_size(self.rate()), mono.len())
    }

    /// The windows that fall due within a packet.
    pub open spec fn windows_in(&self, mono: Seq<u32>) -> Seq<Seq<u32>> {
        windows_among(
            self.window_view(),
            mono,
            self.frames(),
            stft::hop_size(self.rate()),
            mono.len(),
        )
    }

    /// The analysis has taken a step and is now `after`. Of a packet, the whole frames count.
    pub open spec fn stepped(&self, step: AnalysisStep, after: Analyzer) -> bool {
        &&& after.channel_count() == self.channel_count()
        &&& after.rate() == self.rate()
        &&& match step {
            AnalysisStep::Packet { samples, mono } => {
                &&& after@ == self@ + samples.take(mono.len() * self.channel_count())
                &&& after.frames() == self.frames() + mono.len()
                &&& after.window_view() == stft::slide(self.window_view(), mono)
                &&& after.owing() == self.owing() + self.windows_in(mono).len()
                &&& after.raw() == self.raw()
                &&& after.salience() == self.salience()
            },
            AnalysisStep::Column { raw, salience } => {
                &&& after@ == self@
                &&& after.window_view() == self.window_view()
                &&& after.owing() == self.owing() - 1
                &&& after.raw() == self.raw() + raw
                &&& after.salience() == self.salience() + salience
            },
        }
    }

    /// The peaks of what was analysed.
    pub open spec fn found_peaks(&self) -> Seq<Seq<u32>> {
        peaks::all_peaks(self@, self.channel_count(), peaks::chunk_size(self.rate()))
    }

    /// The spectrogram of what was analysed: one column every hop.
    pub open spec fn found_spectrogram(&self, cols_per_sec: u32) -> SpectrogramView {
        SpectrogramView {
            cols: self.frames() / stft::hop_size(self.rate()),
            cols_per_sec,
            midi_lo: MIDI_LO,
            midi_hi: MIDI_HI,
            raw: LayerView { bytes: self.raw(), bins: RAW_BINS as int },
            salience: LayerView { bytes: self.salience(), bins: SAL_BINS as int },
        }
    }

    /// Both analyses have seen the same.
    pub open spec fn same(&self, other: Analyzer) -> bool {
        &&& self@ == other@
        &&& self.channel_count() == other.channel_count()
        &&& self.rate() == other.rate()
        &&& self.window_view() == other.window_view()
        &&& self.owing() == other.owing()
        &&& self.raw() == other.raw()
        &&& self.salience() == other.salience()
    }

    pub closed spec fn inv(&self) -> bool {
        &&& self.peaks.inv()
        &&& self.stft.inv()
        &&& self.peaks.channel_count() == self.channels
        &&& self.peaks.chunk() == peaks::chunk_size(self.sample_rate as int)
        &&& self.stft.hop() == stft::hop_size(self.sample_rate as int)
        &&& self.stft.since_hop() == self.frames() % self.stft.hop()
        &&& self.stft.cols() + self.owed == self.frames() / self.stft.hop()
        &&& self.stft.cols() >= 0
    }

    pub fn new(channels: usize, sample_rate: u32) -> (run: Analyzer)
        requires
            channels > 0,
        ensures
            run.inv(),
            run.fresh(channels as int, sample_rate as int),
    {
        let run: Analyzer = Analyzer {
            channels,
            sample_rate,
            peaks: PeakScan::new(channels, chunk_frames(sample_rate)),
            stft: StftAccumulator::new(sample_rate),
            owed: 0,
        };
        proof {
            vstd::arithmetic::div_mod::lemma_fundamental_div_mod_converse(0, channels as int, 0, 0);
            vstd::arithmetic::div_mod::lemma_fundamental_div_mod_converse(0, run.stft.hop(), 0, 0);
        }
        run
    }

    /// Takes the whole frames of a packet; `mono` holds the mean of each frame's samples.
    pub fn accept(&mut self, samples: &[u32], mono: &[u32]) -> (work: PacketWork)
        requires
            old(self).inv(),
            mono@.len() == samples@.len() as int / old(self).channel_count(),
            old(self).owing() + mono@.len() <= usize::MAX,
        ensures
            final(self).inv(),
            old(self).stepped(packet(samples@, mono@), *final(self)),
            work.chunk_ends@ == old(self).ends_in(mono@),
            decode::rows_view(work.windows@) == old(self).windows_in(mono@),
    {
        let channels: usize = self.channels;
        let frames: usize = mono.len();
        assert(samples.len() <= usize::MAX);
        let mut chunk_ends: Vec<usize> = Vec::new();
        let mut windows: Vec<Vec<u32>> = Vec::new();
        let ghost start = self.frames();
        let ghost chunk = self.peaks.chunk();
        let ghost hop = self.stft.hop();
        let ghost window = self.window_view();
        proof {
            self.peaks.lemma_frames();
            vstd::arithmetic::div_mod::lemma_fundamental_div_mod(
                samples@.len() as int,
                channels as int,
            );
            vstd::arithmetic::div_mod::lemma_mod_bound(samples@.len() as int, channels as int);
            vstd::arithmetic::div_mod::lemma_div_pos_is_pos(self@.len() as int, channels as int);
            assert(frames * channels == channels * frames) by (nonlinear_arith);
            assert(samples@.take(0) =~= Seq::<u32>::empty());
            assert(self@ =~= old(self)@ + samples@.take(0));
            assert(mono@.take(0) =~= Seq::<u32>::empty());
            assert(window =~= stft::slide(window, mono@.take(0)));
        }
        let mut f: usize = 0;
        let mut at: usize = 0;
        while f < frames
            invariant
                f <= frames,
                at == f * channels,
                channels > 0,
                chunk > 0,
                hop > 0,
                start >= 0,
                mono@.len() == frames,
                frames * channels <= samples@.len() <= usize::MAX,
                self.channels == channels,
                self.sample_rate == old(self).sample_rate,
                self.owed == old(self).owed,
                self.peaks.inv(),
                self.peaks.channel_count() == channels,
                self.peaks.chunk() == chunk,
                self.peaks@ == old(self).peaks@ + samples@.take(f * channels),
                self.frames() == start + f,
                self.stft.inv(),
                self.stft.hop() == hop,
                self.stft.since_hop() == (start + f) % hop,
                self.stft.window_view() == stft::slide(window, mono@.take(f as int)),
                self.stft.raw() == old(self).stft.raw(),
                self.stft.salience() == old(self).stft.salience(),
                self.stft.cols() == old(self).stft.cols(),
                self.stft.cols() + self.owed + windows@.len() == (start + f) / hop,
                windows@.len() <= f,
                chunk_ends@ == ends_among(start, chunk, f as nat),
                decode::rows_view(windows@) == windows_among(window, mono@, start, hop, f as nat),
            decreases frames - f,
        {
            proof {
                assert(f * channels + channels <= frames * channels) by (nonlinear_arith)
                    requires
                        f < frames,
                        channels > 0,
                ;
                assert((f + 1) * channels == f * channels + channels) by (nonlinear_arith);
                self.peaks.lemma_frames();
                peaks::lemma_count_step(start + f, chunk);
                peaks::lemma_count_step(start + f, hop);
            }
            let ghost seen = self.peaks@;
            let ended: bool = self.peaks.push_frame(
                vstd::slice::slice_subrange(samples, at, at + channels),
            );
            proof {
                assert(self.peaks@ =~= old(self).peaks@ + samples@.take((f + 1) * channels));
                assert(seen.len() + channels == (start + f + 1) * channels) by (nonlinear_arith)
                    requires
                        seen.len() == (start + f) * channels,
                ;
                vstd::arithmetic::div_mod::lemma_div_multiples_vanish(
                    start + f + 1,
                    channels as int,
                );
                assert((start + f + 1) * channels == channels * (start + f + 1))
                    by (nonlinear_arith);
            }
            if ended {
                chunk_ends.push(f);
            }
            let due: bool = self.stft.push(mono[f]);
            proof {
                stft::law_slide_composes(window, mono@.take(f as int), seq![mono@[f as int]]);
                assert(mono@.take(f as int) + seq![mono@[f as int]] =~= mono@.take(f + 1));
            }
            if due {
                windows.push(self.stft.window());
            }
            proof {
                assert(decode::rows_view(windows@) =~= windows_among(
                    window,
                    mono@,
                    start,
                    hop,
                    (f + 1) as nat,
                ));
            }
            at += channels;
            f += 1;
        }
        assert(mono@.take(frames as int) =~= mono@);
        self.owed = self.owed + windows.len();
        PacketWork { chunk_ends, windows }
    }

    /// Adds the column of the oldest window that is owed one.
    pub fn add_column(&mut self, raw: &[u8], salience: &[u8])
        requires
            old(self).inv(),
            old(self).owing() > 0,
            raw@.len() == RAW_BINS,
            salience@.len() == SAL_BINS,
        ensures
            final(self).inv(),
            old(self).stepped(column(raw@, salience@), *final(self)),
    {
        self.stft.add_column(raw, salience);
        self.owed = self.owed - 1;
    }

    /// Frames in the chunk that is not complete yet; its bass energy is taken at the end.
    pub fn pending(&self) -> (frames: usize)
        requires
            self.inv(),
        ensures
            frames == self.frames() % peaks::chunk_size(self.rate()),
    {
        proof {
            self.peaks.lemma_frames();
        }
        self.peaks.pending()
    }

    /// The peaks and the spectrogram of all that was analysed: one column every hop.
    pub fn finish(self, cols_per_sec: u32) -> (out: (Vec<Vec<u32>>, SpectrogramData))
        requires
            self.inv(),
            self.owing() == 0,
        ensures
            decode::rows_view(out.0@) == self.found_peaks(),
            out.1@ == self.found_spectrogram(cols_per_sec),
            out.1.raw.bytes@.len() == out.1.cols * out.1.raw.bins,
            out.1.salience.bytes@.len() == out.1.cols * out.1.salience.bins,
    {
        (self.peaks.finish(), self.stft.finish(cols_per_sec))
    }
}

/// A scan that keeps no samples.
pub struct PeakRun {
    pub analyzer: Analyzer,
    pub total_frames: usize,
    pub progress: Progress,
}

impl PeakRun {
    pub open spec fn inv(&self) -> bool {
        self.analyzer.inv() && self.analyzer.frames() == self.total_frames
    }

    /// A scan of a file that says it has `n_frames` frames (0 if it does not say).
    pub fn new(channels: usize, sample_rate: u32, n_frames: usize) -> (run: PeakRun)
        requires
            channels > 0,
            4 * sample_rate <= usize::MAX,
        ensures
            run.inv(),
            run.analyzer.fresh(channels as int, sample_rate as int),
            run.total_frames == 0,
            run.progress.expected == n_frames,
            run.progress.interval == (if sample_rate == 0 { 1 } else { 4 * sample_rate as int }),
            run.progress.next == run.progress.interval,
    {
        let run: PeakRun = PeakRun {
            analyzer: Analyzer::new(channels, sample_rate),
            total_frames: 0,
            progress: Progress::new(n_frames, scan_interval(sample_rate)),
        };
        proof {
            vstd::arithmetic::div_mod::lemma_fundamental_div_mod_converse(0, channels as int, 0, 0);
        }
        run
    }

    /// Takes a packet. The second part says whether to report progress now.
    pub fn accept(&mut self, samples: &[u32], mono: &[u32]) -> (out: (PacketWork, bool))
        requires
            old(self).inv(),
            mono@.len() == samples@.len() as int / old(self).analyzer.channel_count(),
            old(self).analyzer.owing() + mono@.len() <= usize::MAX,
            old(self).total_frames + mono@.len() + old(self).progress.interval <= usize::MAX,
        ensures
            final(self).inv(),
            final(self).total_frames == old(self).total_frames + mono@.len(),
            old(self).analyzer.stepped(packet(samples@, mono@), final(self).analyzer),
            out.0.chunk_ends@ == old(self).analyzer.ends_in(mono@),
            decode::rows_view(out.0.windows@) == old(self).analyzer.windows_in(mono@),
            out.1 == (old(self).progress.expected > 0 && final(self).total_frames
                >= old(self).progress.next),
            final(self).progress.expected == old(self).progress.expected,
            final(self).progress.interval == old(self).progress.interval,
            final(self).progress.next == (if out.1 {
                final(self).total_frames + old(self).progress.interval
            } else {
                old(self).progress.next as int
            }),
    {
        let work: PacketWork = self.analyzer.accept(samples, mono);
        self.total_frames += mono.len();
        let report: bool = self.progress.advance(self.total_frames);
        (work, report)
    }

    /// What the scan found. The bass peaks and the duration (a double's bit pattern) are
    /// computed alongside.
    pub fn finish(
        self,
        bass_peaks: Vec<Vec<u32>>,
        duration_secs: u64,
        cols_per_sec: u32,
    ) -> (meta: AudioMeta)
        requires
            self.inv(),
            self.analyzer.owing() == 0,
        ensures
            meta.channels == self.analyzer.channel_count(),
            meta.sample_rate == self.analyzer.rate(),
            meta.duration_secs == duration_secs,
            decode::rows_view(meta.peaks@) == self.analyzer.found_peaks(),
            meta.bass_peaks == bass_peaks,
            meta.spectrogram@ == self.analyzer.found_spectrogram(cols_per_sec),
            meta.spectrogram.raw.bytes@.len() == meta.spectrogram.cols * RAW_BINS,
            meta.spectrogram.salience.bytes@.len() == meta.spectrogram.cols * SAL_BINS,
    {
        let channels: usize = self.analyzer.channels;
        let sample_rate: u32 = self.analyzer.sample_rate;
        let (peaks, spectrogram) = self.analyzer.finish(cols_per_sec);
        AudioMeta { channels, sample_rate, duration_secs, peaks, bass_peaks, spectrogram }
    }
}

/// Collects all samples of a file.
pub struct PcmRun {
    pub audio: DecodedAudio,
    pub progress: Progress,
}

impl PcmRun {
    /// A run over a file that says it has `n_frames` frames (`None` if it does not say).
    pub fn new(channels: usize, sample_rate: u32, n_frames: Option<usize>) -> (run: PcmRun)
        requires
            2 * sample_rate * channels <= usize::MAX,
            2 * sample_rate <= usize::MAX,
            n_frames is Some ==> n_frames->0 * channels <= usize::MAX,
        ensures
            run.audio@ == (AudioView {
                samples: Seq::empty(),
                channels: channels as int,
                sample_rate: sample_rate as int,
            }),
            run.progress.expected == (match n_frames {
                Some(n) => n * channels,
                None => 0,
            }),
            run.progress.interval == (if sample_rate == 0 || channels == 0 { 1 } else {
                2 * sample_rate * channels
            }),
            run.progress.next == run.progress.interval,
    {
        let expected: usize = match n_frames {
            Some(n) => n * channels,
            None => 0,
        };
        PcmRun {
            audio: DecodedAudio { samples: Vec::new(), channels, sample_rate },
            progress: Progress::new(expected, decode_interval(sample_rate, channels)),
        }
    }

    /// Takes a packet; says whether to report progress now.
    pub fn accept(&mut self, samples: &[u32]) -> (report: bool)
        requires
            old(self).audio.samples@.len() + samples@.len() + old(self).progress.interval
                <= usize::MAX,
        ensures
            final(self).audio@ == (AudioView {
                samples: old(self).audio.samples@ + samples@,
                ..old(self).audio@
            }),
            report == (old(self).progress.expected > 0 && final(self).audio.samples@.len()
                >= old(self).progress.next),
            final(self).progress.expected == old(self).progress.expected,
            final(self).progress.interval == old(self).progress.interval,
            final(self).progress.next == (if report {
                final(self).audio.samples@.len() + old(self).progress.interval
            } else {
                old(self).progress.next as int
            }),
    {
        self.audio.samples.extend_from_slice(samples);
        assert(self.audio.samples@ =~= old(self).audio.samples@ + samples@);
        self.progress.advance(self.audio.samples.len())
    }
}

/// A single pass that keeps the samples and analyses them too.
pub struct FullRun {
    pub analyzer: Analyzer,
    pub pcm: PcmRun,
}

impl FullRun {
    pub open spec fn inv(&self) -> bool {
        &&& self.analyzer.inv()
        &&& self.analyzer.channel_count() == self.pcm.audio.channels
        &&& self.analyzer.rate() == self.pcm.audio.sample_rate
    }

    /// All samples have been analysed. It stays so as long as every packet holds whole frames.
    pub open spec fn whole(&self) -> bool {
        self.analyzer@ == self.pcm.audio.samples@
    }

    /// A run over a file that says it has `n_frames` frames (`None` if it does not say).
    pub fn new(channels: usize, sample_rate: u32, n_frames: Option<usize>) -> (run: FullRun)
        requires
            channels > 0,
            2 * sample_rate * channels <= usize::MAX,
            2 * sample_rate <= usize::MAX,
            n_frames is Some ==> n_frames->0 * channels <= usize::MAX,
        ensures
            run.inv(),
            run.analyzer.fresh(channels as int, sample_rate as int),
            run.whole(),
            run.pcm.audio@ == (AudioView {
                samples: Seq::empty(),
                channels: channels as int,
                sample_rate: sample_rate as int,
            }),
            run.pcm.progress.expected == (match n_frames {
                Some(n) => n * channels,
                None => 0,
            }),
            run.pcm.progress.interval == (if sample_rate == 0 { 1 } else {
                2 * sample_rate * channels
            }),
            run.pcm.progress.next == run.pcm.progress.interval,
    {
        FullRun {
            analyzer: Analyzer::new(channels, sample_rate),
            pcm: PcmRun::new(channels, sample_rate, n_frames),
        }
    }

    /// Takes a packet. The second part says whether to report progress now.
    pub fn accept(&mut self, samples: &[u32], mono: &[u32]) -> (out: (PacketWork, bool))
        requires
            old(self).inv(),
            mono@.len() == samples@.len() as int / old(self).analyzer.channel_count(),
            old(self).analyzer.owing() + mono@.len() <= usize::MAX,
            old(self).pcm.audio.samples@.len() + samples@.len()
                + old(self).pcm.progress.interval <= usize::MAX,
        ensures
            final(self).inv(),
            old(self).analyzer.stepped(packet(samples@, mono@), final(self).analyzer),
            old(self).whole() && samples@.len() as int % old(self).analyzer.channel_count() == 0
                ==> final(self).whole(),
            final(self).pcm.audio@ == (AudioView {
                samples: old(self).pcm.audio.samples@ + samples@,
                ..old(self).pcm.audio@
            }),
            out.0.chunk_ends@ == old(self).analyzer.ends_in(mono@),
            decode::rows_view(out.0.windows@) == old(self).analyzer.windows_in(mono@),
            out.1 == (old(self).pcm.progress.expected > 0 && final(self).pcm.audio.samples@.len()
                >= old(self).pcm.progress.next),
            final(self).pcm.progress.expected == old(self).pcm.progress.expected,
            final(self).pcm.progress.interval == old(self).pcm.progress.interval,
            final(self).pcm.progress.next == (if out.1 {
                final(self).pcm.audio.samples@.len() + old(self).pcm.progress.interval
            } else {
                old(self).pcm.progress.next as int
            }),
    {
        proof {
            let channels = self.analyzer.channel_count();
            self.analyzer.peaks.lemma_frames();
            vstd::arithmetic::div_mod::lemma_fundamental_div_mod(samples@.len() as int, channels);
            assert(mono@.len() * channels == channels * mono@.len()) by (nonlinear_arith);
            assert(samples@.take(samples@.len() as int) =~= samples@);
        }
        let work: PacketWork = self.analyzer.accept(samples, mono);
        let report: bool = self.pcm.accept(samples);
        (work, report)
    }

    /// The samples, their peaks and their spectrogram.
    pub fn finish(self, cols_per_sec: u32) -> (out: (DecodedAudio, Vec<Vec<u32>>, SpectrogramData))
        requires
            self.inv(),
            self.analyzer.owing() == 0,
        ensures
            out.0 == self.pcm.audio,
            decode::rows_view(out.1@) == self.analyzer.found_peaks(),
            self.whole() ==> decode::rows_view(out.1@) == peaks::all_peaks(
                out.0.samples@,
                out.0.channels as int,
                peaks::chunk_size(out.0.sample_rate as int),
            ),
            out.2@ == self.analyzer.found_spectrogram(cols_per_sec),
            out.2.raw.bytes@.len() == out.2.cols * RAW_BINS,
            out.2.salience.bytes@.len() == out.2.cols * SAL_BINS,
    {
        let (peaks, spectrogram) = self.analyzer.finish(cols_per_sec);
        (self.pcm.audio, peaks, spectrogram)
    }
}

/// A scan and a single pass that take the same packets and columns find the same peaks and the
/// same spectrogram. `scan` and `pass` list the two runs before and after each step.
pub proof fn law_scan_and_single_pass_agree(
    scan: Seq<PeakRun>,
    pass: Seq<FullRun>,
    steps: Seq<AnalysisStep>,
    channels: int,
    sample_rate: int,
    cols_per_sec: u32,
)
    requires
        scan.len() == steps.len() + 1,
        pass.len() == steps.len() + 1,
        scan[0].analyzer.fresh(channels, sample_rate),
        pass[0].analyzer.fresh(channels, sample_rate),
        forall|i: int|
            0 <= i < steps.len() ==> scan[i].analyzer.stepped(
                #[trigger] steps[i],
                scan[i + 1].analyzer,
            ),
        forall|i: int|
            0 <= i < steps.len() ==> pass[i].analyzer.stepped(
                #[trigger] steps[i],
                pass[i + 1].analyzer,
            ),
    ensures
        scan.last().analyzer.same(pass.last().analyzer),
        scan.last().analyzer.found_peaks() == pass.last().analyzer.found_peaks(),
        scan.last().analyzer.found_spectrogram(cols_per_sec)
            == pass.last().analyzer.found_spectrogram(cols_per_sec),
    decreases steps.len(),
{
    let n = steps.len() as int;
    if n > 0 {
        let (before, rest) = (steps.drop_last(), scan.drop_last());
        assert forall|i: int| 0 <= i < before.len() implies rest[i].analyzer.stepped(
            #[trigger] before[i],
            rest[i + 1].analyzer,
        ) by {
            assert(before[i] == steps[i]);
        }
        let others = pass.drop_last();
        assert forall|i: int| 0 <= i < before.len() implies others[i].analyzer.stepped(
            #[trigger] before[i],
            others[i + 1].analyzer,
        ) by {
            assert(before[i] == steps[i]);
        }
        law_scan_and_single_pass_agree(rest, others, before, channels, sample_rate, cols_per_sec);
        assert(scan[n - 1].analyzer.same(pass[n - 1].analyzer));
        assert(scan[n - 1].analyzer.stepped(steps[n - 1], scan[n].analyzer));
        assert(pass[n - 1].analyzer.stepped(steps[n - 1], pass[n].analyzer));
    }
}

/// However the frames come in packets, each chunk ends once: `n` frames after `start` hold as
/// many ends as there are multiples of the size among them. The same goes for windows and hops.
pub proof fn law_every_chunk_ends_once(
    window: Seq<u32>,
    mono: Seq<u32>,
    start: int,
    size: int,
    n: nat,
)
    requires
        size > 0,
        start >= 0,
    ensures
        ends_among(start, size, n).len() == (start + n) / size - start / size,
        windows_among(window, mono, start, size, n).len() == (start + n) / size - start / size,
    decreases n,
{
    if n > 0 {
        law_every_chunk_ends_once(window, mono, start, size, (n - 1) as nat);
        peaks::lemma_count_step(start + n - 1, size);
        vstd::arithmetic::div_mod::lemma_mod_bound(start + n - 1, size);
    }
}

/// Taking one value at each end of a chunk, and one more for the frames that are left over, gives
/// as many values as there are peaks.
pub proof fn law_ends_and_rest_are_all_chunks(frames: int, size: int)
    requires
        size > 0,
        frames >= 0,
    ensures
        peaks::chunk_count(frames, size) == frames / size + (if frames % size > 0 {
            1int
        } else {
            0int
        }),
{
    vstd::arithmetic::div_mod::lemma_fundamental_div_mod(frames, size);
    vstd::arithmetic::div_mod::lemma_mod_bound(frames, size);
    vstd::arithmetic::div_mod::lemma_div_pos_is_pos(frames, size);
    assert(size * (frames / size) == frames / size * size) by (nonlinear_arith);
    peaks::lemma_chunk_count(frames, size, frames / size, frames % size);
}

/// The samples of all packets, one after the other.
pub open spec fn all_samples(packets: Seq<Seq<u32>>) -> Seq<u32>
    decreases packets.len(),
{
    if packets.len() == 0 {
        Seq::empty()
    } else {
        all_samples(packets.drop_last()) + packets.last()
    }
}

/// The samples of the whole frames of all packets, one after the other.
pub open spec fn framed_samples(packets: Seq<Seq<u32>>, channels: int) -> Seq<u32>
    decreases packets.len(),
{
    if packets.len() == 0 {
        Seq::empty()
    } else {
        framed_samples(packets.drop_last(), channels) + packets.last().take(
            packets.last().len() as int / channels * channels,
        )
    }
}

/// Where every packet holds whole frames, the peaks that a run finds packet by packet are those
/// of the decoded audio as a whole.
pub proof fn law_run_peaks_are_audio_peaks(packets: Seq<Seq<u32>>, channels: int, chunk: int)
    requires
        channels > 0,
        forall|i: int| 0 <= i < packets.len() ==> (#[trigger] packets[i]).len() as int % channels == 0,
    ensures
        framed_samples(packets, channels) == all_samples(packets),
        peaks::all_peaks(framed_samples(packets, channels), channels, chunk) == peaks::all_peaks(
            all_samples(packets),
            channels,
            chunk,
        ),
    decreases packets.len(),
{
    if packets.len() > 0 {
        law_run_peaks_are_audio_peaks(packets.drop_last(), channels, chunk);
        let last = packets.last();
        vstd::arithmetic::div_mod::lemma_fundamental_div_mod(last.len() as int, channels);
        assert(last.len() as int / channels * channels == channels * (last.len() as int / channels))
            by (nonlinear_arith);
        assert(last.take(last.len() as int) =~= last);
    }
}

/// What a scan finds can be cached: a file that holds it, whatever follows in the file, reads
/// back as the same analysis. The bass peaks come one per chunk, as the peaks do.
pub proof fn law_scan_is_read_back_from_its_cache(
    meta: MetaView,
    samples: Seq<u32>,
    chunk: int,
    tail: Seq<u8>,
)
    requires
        0 < meta.channels < 4294967296,
        0 < meta.sample_rate < 4294967296,
        chunk > 0,
        meta.peaks == peaks::all_peaks(samples, meta.channels, chunk),
        peaks::chunk_count(samples.len() as int / meta.channels, chunk) < 4294967296,
        meta.bass_peaks.len() == meta.channels,
        forall|c: int|
            0 <= c < meta.channels ==> (#[trigger] meta.bass_peaks[c]).len() == peaks::chunk_count(
                samples.len() as int / meta.channels,
                chunk,
            ),
        0 <= meta.spectrogram.cols < 4294967296,
        meta.spectrogram.raw.bins == RAW_BINS,
        meta.spectrogram.salience.bins == SAL_BINS,
        meta.spectrogram.raw.bytes.len() == meta.spectrogram.cols * RAW_BINS,
        meta.spectrogram.salience.bytes.len() == meta.spectrogram.cols * SAL_BINS,
    ensures
        peaks_cache::peaks_file_ok(peaks_cache::peaks_file(meta) + tail),
        peaks_cache::peaks_contents(peaks_cache::peaks_file(meta) + tail) == meta,
{
    let n = peaks::chunk_count(samples.len() as int / meta.channels, chunk);
    assert(meta.bass_peaks[0].len() == n);
    assert forall|c: int| 0 <= c < meta.channels implies (#[trigger] meta.peaks[c]).len() == n by {
        assert(meta.peaks[c] == peaks::channel_peaks(samples, meta.channels, c, chunk));
    }
    assert(meta.peaks[0].len() == n);
    assert(peaks_cache::cacheable(meta));
    peaks_cache::law_peaks_cache_reads_back(meta, tail);
}

/// A chunk ends with exactly those frames of a packet that make the count a multiple of its size.
pub proof fn law_chunks_end_at_multiples(start: int, size: int, n: nat, f: usize)
    requires
        size > 0,
        n <= usize::MAX,
    ensures
        ends_among(start, size, n).contains(f) <==> f < n && (start + f + 1) % size == 0,
    decreases n,
{
    let all = ends_among(start, size, n);
    if n == 0 {
        assert(!all.contains(f));
    } else {
        let before = ends_among(start, size, (n - 1) as nat);
        law_chunks_end_at_multiples(start, size, (n - 1) as nat, f);
        if before.contains(f) {
            let i = choose|i: int| 0 <= i < before.len() && before[i] == f;
            assert(all[i] == f);
        }
        if (start + n) % size == 0 {
            assert(all[all.len() - 1] == n - 1);
        }
        if all.contains(f) {
            let i = choose|i: int| 0 <= i < all.len() && all[i] == f;
            if i < before.len() {
                assert(before[i] == f);
            }
        }
    }
}

/// A window is due exactly where a hop ends, and holds the samples up to there: the window of the
/// hop that ends with the first `m` samples is the one that has slid over them.
pub proof fn law_windows_are_due_at_hops(
    window: Seq<u32>,
    mono: Seq<u32>,
    start: int,
    hop: int,
    n: nat,
    m: int,
)
    requires
        hop > 0,
        start >= 0,
        0 < m <= n,
        (start + m) % hop == 0,
    ensures
        ({
            let k = (start + m) / hop - start / hop - 1;
            &&& 0 <= k < windows_among(window, mono, start, hop, n).len()
            &&& windows_among(window, mono, start, hop, n)[k] == stft::slide(window, mono.take(m))
        }),
    decreases n,
{
    if m < n {
        law_windows_are_due_at_hops(window, mono, start, hop, (n - 1) as nat, m);
    } else {
        law_every_chunk_ends_once(window, mono, start, hop, (n - 1) as nat);
        law_every_chunk_ends_once(window, mono, start, hop, n);
    }
}

/// Taking a packet adds its whole frames to what has been analysed, moves the window along by
/// their means, and owes a column for each hop that ends within it; adding a column appends its
/// bytes to both layers and pays for one.
pub proof fn law_analysis_takes_all_it_is_given(
    before: Analyzer,
    after: Analyzer,
    samples: Seq<u32>,
    mono: Seq<u32>,
    raw: Seq<u8>,
    salience: Seq<u8>,
)
    requires
        before.channel_count() > 0,
        before.rate() >= 0,
        before.frames() >= 0,
    ensures
        before.stepped(packet(samples, mono), after) ==> {
            &&& after@ == before@ + samples.take(mono.len() * before.channel_count())
            &&& after.frames() == before.frames() + mono.len()
            &&& after.window_view() == stft::slide(before.window_view(), mono)
            &&& after.owing() - before.owing() == after.frames() / stft::hop_size(before.rate())
                - before.frames() / stft::hop_size(before.rate())
            &&& after.raw() == before.raw() && after.salience() == before.salience()
            &&& after.channel_count() == before.channel_count() && after.rate() == before.rate()
        },
        before.stepped(column(raw, salience), after) ==> {
            &&& after@ == before@ && after.window_view() == before.window_view()
            &&& after.raw() == before.raw() + raw && after.salience() == before.salience()
                + salience
            &&& after.owing() == before.owing() - 1
            &&& after.channel_count() == before.channel_count() && after.rate() == before.rate()
        },
{
    stft::law_hop_is_a_twentieth_of_a_second(before.rate());
    law_every_chunk_ends_once(
        before.window_view(),
        mono,
        before.frames(),
        stft::hop_size(before.rate()),
        mono.len(),
    );
}

/// What falls due within a packet follows from where the analysis stands: the chunks that end in
/// it, and the windows of the hops that end in it.
pub proof fn law_due_work_follows_the_frames(run: Analyzer, mono: Seq<u32>, f: usize, m: int)
    requires
        run.rate() >= 0,
        run.frames() >= 0,
        mono.len() <= usize::MAX,
    ensures
        run.ends_in(mono).contains(f) <==> f < mono.len() && (run.frames() + f + 1)
            % peaks::chunk_size(run.rate()) == 0,
        0 < m <= mono.len() && (run.frames() + m) % stft::hop_size(run.rate()) == 0
            ==> run.windows_in(mono).contains(stft::slide(run.window_view(), mono.take(m))),
        run.windows_in(mono).len() == (run.frames() + mono.len()) / stft::hop_size(run.rate())
            - run.frames() / stft::hop_size(run.rate()),
{
    peaks::law_chunk_is_a_hundredth_of_a_second(run.rate());
    stft::law_hop_is_a_twentieth_of_a_second(run.rate());
    let hop = stft::hop_size(run.rate());
    law_chunks_end_at_multiples(run.frames(), peaks::chunk_size(run.rate()), mono.len(), f);
    law_every_chunk_ends_once(run.window_view(), mono, run.frames(), hop, mono.len());
    if 0 < m <= mono.len() && (run.frames() + m) % hop == 0 {
        law_windows_are_due_at_hops(run.window_view(), mono, run.frames(), hop, mono.len(), m);
        let k = (run.frames() + m) / hop - run.frames() / hop - 1;
        assert(run.windows_in(mono)[k] == stft::slide(run.window_view(), mono.take(m)));
    }
}

/// An analysis finds one peak per hundredth of a second and twenty columns per second, over the
/// keys of a piano, of all that it has seen.
pub proof fn law_analysis_counts_by_the_second(run: Analyzer, secs: int, c: int, cols_per_sec: u32)
    requires
        run.channel_count() > 0,
        run.rate() > 0,
        run.rate() % 100 == 0,
        secs >= 0,
        run@.len() == secs * run.rate() * run.channel_count(),
        0 <= c < run.channel_count(),
    ensures
        run.found_peaks().len() == run.channel_count(),
        run.found_peaks()[c].len() == 100 * secs,
        run.found_spectrogram(cols_per_sec).cols == 20 * secs,
        run.found_spectrogram(cols_per_sec).cols_per_sec == cols_per_sec,
        run.found_spectrogram(cols_per_sec).midi_lo == 21,
        run.found_spectrogram(cols_per_sec).midi_hi == 108,
        run.found_spectrogram(cols_per_sec).raw.bins == 175,
        run.found_spectrogram(cols_per_sec).salience.bins == 88,
        run.found_spectrogram(cols_per_sec).raw.bytes == run.raw(),
        run.found_spectrogram(cols_per_sec).salience.bytes == run.salience(),
{
    let (channels, rate) = (run.channel_count(), run.rate());
    peaks::law_hundred_peaks_per_second(run@, channels, rate, secs, c);
    let total = secs * rate;
    vstd::arithmetic::div_mod::lemma_div_multiples_vanish(total, channels);
    assert(total * channels == channels * total) by (nonlinear_arith);
    let hop = stft::hop_size(rate);
    assert(rate == 20 * hop);
    assert(total == (20 * secs) * hop + 0) by (nonlinear_arith)
        requires
            total == secs * rate,
            rate == 20 * hop,
    ;
    vstd::arithmetic::div_mod::lemma_fundamental_div_mod_converse(total, hop, 20 * secs, 0);
}

/// The peaks that an analysis finds are the loudest samples of all that it has seen, chunk by
/// chunk.
pub proof fn law_analysis_finds_the_loudest(run: Analyzer, c: int, k: int)
    requires
        run.channel_count() > 0,
        run.rate() >= 0,
        0 <= c < run.channel_count(),
        0 <= k < run.found_peaks()[c].len(),
    ensures
        ({
            let chunk = peaks::chunk_size(run.rate());
            let peak = run.found_peaks()[c][k];
            &&& forall|f: int|
                k * chunk <= f < (k + 1) * chunk && f < run.frames() && !bits::f32_nan(
                    #[trigger] run@[f * run.channel_count() + c],
                ) ==> bits::f32_magnitude(run@[f * run.channel_count() + c]) <= peak
            &&& peak == 0 || exists|f: int|
                k * chunk <= f < (k + 1) * chunk && f < run.frames() && !bits::f32_nan(
                    #[trigger] run@[f * run.channel_count() + c],
                ) && bits::f32_magnitude(run@[f * run.channel_count() + c]) == peak
        }),
{
    peaks::law_chunk_is_a_hundredth_of_a_second(run.rate());
    peaks::law_each_peak_is_the_loudest_of_its_chunk(
        run@,
        run.channel_count(),
        peaks::chunk_size(run.rate()),
        c,
        k,
    );
}

} // verus!
