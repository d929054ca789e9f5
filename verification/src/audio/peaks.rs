//! Waveform peaks: the loudest sample of each channel in each hundredth of a second.

use vstd::prelude::*;
use crate::bits;
use crate::bits::{f32_abs, F32_INF};

verus! {

/// Counts to `size`, over and over.
pub struct ChunkClock {
    pub size: usize,
    pub filled: usize,
}

impl ChunkClock {
    pub open spec fn inv(&self) -> bool {
        self.filled < self.size
    }

    pub fn new(size: usize) -> (clock: ChunkClock)
        requires
            size > 0,
        ensures
            clock.inv(),
            clock.size == size,
            clock.filled == 0,
    {
        ChunkClock { size, filled: 0 }
    }

    /// Counts one more; says whether that completed a chunk.
    pub fn tick(&mut self) -> (done: bool)
        requires
            old(self).inv(),
        ensures
            final(self).inv(),
            final(self).size == old(self).size,
            done == (old(self).filled + 1 == old(self).size),
            final(self).filled == (if done { 0 } else { old(self).filled + 1 }),
    {
        self.filled += 1;
        if self.filled >= self.size {
            self.filled = 0;
            true
        } else {
            false
        }
    }
}

/// What a clock of `size` that starts empty shows after `n` ticks: chunks completed, and how
/// full the next one is.
pub open spec fn ticked(size: int, n: nat) -> (int, int)
    decreases n,
{
    if n == 0 {
        (0, 0)
    } else {
        let before = ticked(size, (n - 1) as nat);
        if before.1 + 1 == size {
            (before.0 + 1, 0)
        } else {
            (before.0, before.1 + 1)
        }
    }
}

/// Ticking counts: after `n` ticks `n / size` chunks are complete and `n % size` ticks are over.
pub proof fn law_clock_counts(size: int, n: nat)
    requires
        size > 0,
    ensures
        ticked(size, n) == (n as int / size, n as int % size),
    decreases n,
{
    if n > 0 {
        law_clock_counts(size, (n - 1) as nat);
        lemma_count_step((n - 1) as int, size);
    } else {
        vstd::arithmetic::div_mod::lemma_fundamental_div_mod_converse(0, size, 0, 0);
    }
}

/// How quotient and remainder change when a count goes up by one.
pub proof fn lemma_count_step(n: int, size: int)
    requires
        n >= 0,
        size > 0,
    ensures
        n % size + 1 == size ==> (n + 1) / size == n / size + 1 && (n + 1) % size == 0,
        n % size + 1 != size ==> (n + 1) / size == n / size && (n + 1) % size == n % size + 1,
{
    let q = n / size;
    let r = n % size;
    vstd::arithmetic::div_mod::lemma_fundamental_div_mod(n, size);
    vstd::arithmetic::div_mod::lemma_mod_bound(n, size);
    if r + 1 == size {
        assert(n + 1 == (q + 1) * size + 0) by (nonlinear_arith)
            requires
                n == size * q + r,
                r + 1 == size,
        ;
        vstd::arithmetic::div_mod::lemma_fundamental_div_mod_converse(n + 1, size, q + 1, 0);
    } else {
        assert(n + 1 == q * size + (r + 1)) by (nonlinear_arith)
            requires
                n == size * q + r,
        ;
        vstd::arithmetic::div_mod::lemma_fundamental_div_mod_converse(n + 1, size, q, r + 1);
    }
}

/// Frames in a chunk of peaks: a hundredth of a second, at least one.
pub open spec fn chunk_size(sample_rate: int) -> int {
    if sample_rate / 100 > 1 {
        sample_rate / 100
    } else {
        1
    }
}

/// Frames in a chunk of peaks.
pub fn chunk_frames(sample_rate: u32) -> (chunk: usize)
    ensures
        chunk == chunk_size(sample_rate as int),
        chunk > 0,
{
    let chunk: u32 = sample_rate / 100;
    if chunk > 1 {
        chunk as usize
    } else {
        1
    }
}

/// A peak after one more sample: its absolute value if that is greater. A sample that is not a
/// number leaves the peak alone.
pub open spec fn louder(peak: u32, sample: u32) -> u32 {
    if !bits::f32_nan(sample) && bits::f32_magnitude(sample) > peak {
        bits::f32_magnitude(sample)
    } else {
        peak
    }
}

/// The peak of channel `c` over the frames from `lo` up to `hi`.
pub open spec fn peak_between(samples: Seq<u32>, channels: int, c: int, lo: int, hi: int) -> u32
    decreases hi - lo,
{
    if hi <= lo {
        0
    } else {
        louder(
            peak_between(samples, channels, c, lo, hi - 1),
            samples[(hi - 1) * channels + c],
        )
    }
}

/// Number of chunks that `total` frames begin.
pub open spec fn chunk_count(total: int, chunk: int) -> int {
    (total + chunk - 1) / chunk
}

/// The peaks of channel `c`, chunk by chunk, the last chunk possibly shorter.
pub open spec fn channel_peaks(samples: Seq<u32>, channels: int, c: int, chunk: int) -> Seq<u32> {
    let total = samples.len() as int / channels;
    Seq::new(
        chunk_count(total, chunk) as nat,
        |k: int|
            peak_between(
                samples,
                channels,
                c,
                k * chunk,
                if (k + 1) * chunk < total { (k + 1) * chunk } else { total },
            ),
    )
}

/// The peaks of all channels.
pub open spec fn all_peaks(samples: Seq<u32>, channels: int, chunk: int) -> Seq<Seq<u32>> {
    Seq::new(channels as nat, |c: int| channel_peaks(samples, channels, c, chunk))
}

/// Collects peaks frame by frame.
pub struct PeakScan {
    channels: usize,
    clock: ChunkClock,
    chunk_max: Vec<u32>,
    peaks: Vec<Vec<u32>>,
    seen: Ghost<Seq<u32>>,
    frames: Ghost<int>,
    done: Ghost<int>,
}

impl View for PeakScan {
    type V = Seq<u32>;

    /// The interleaved samples of the frames scanned so far.
    closed spec fn view(&self) -> Seq<u32> {
        self.seen@
    }
}

impl PeakScan {
    pub closed spec fn channel_count(&self) -> int {
        self.channels as int
    }

    pub closed spec fn chunk(&self) -> int {
        self.clock.size as int
    }

    /// Frames in the chunk that is not complete yet.
    pub closed spec fn in_chunk(&self) -> int {
        self.clock.filled as int
    }

    pub closed spec fn inv(&self) -> bool {
        &&& self.channels > 0
        &&& self.clock.inv()
        &&& self.frames@ >= 0
        &&& self.done@ >= 0
        &&& self.seen@.len() == self.frames@ * self.channels
        &&& self.frames@ == self.done@ * self.clock.size + self.clock.filled
        &&& self.chunk_max@.len() == self.channels
        &&& self.peaks@.len() == self.channels
        &&& forall|c: int|
            0 <= c < self.channels ==> #[trigger] self.chunk_max@[c] == peak_between(
                self.seen@,
                self.channels as int,
                c,
                self.done@ * self.clock.size,
                self.frames@,
            )
        &&& forall|c: int|
            0 <= c < self.channels ==> (#[trigger] self.peaks@[c])@ == full_peaks(
                self.seen@,
                self.channels as int,
                c,
                self.clock.size as int,
                self.done@,
            )
    }

    /// What a scan has seen is a whole number of frames, and the last chunk holds those after
    /// the last multiple of its size.
    pub proof fn lemma_frames(&self)
        requires
            self.inv(),
        ensures
            self.channel_count() > 0,
            self.chunk() > 0,
            self@.len() == self@.len() as int / self.channel_count() * self.channel_count(),
            self.in_chunk() == self@.len() as int / self.channel_count() % self.chunk(),
    {
        let channels = self.channels as int;
        assert(self.frames@ * channels == channels * self.frames@) by (nonlinear_arith);
        vstd::arithmetic::div_mod::lemma_div_multiples_vanish(self.frames@, channels);
        vstd::arithmetic::div_mod::lemma_fundamental_div_mod_converse(
            self.frames@,
            self.clock.size as int,
            self.done@,
            self.clock.filled as int,
        );
    }

    pub fn new(channels: usize, chunk: usize) -> (scan: PeakScan)
        requires
            channels > 0,
            chunk > 0,
        ensures
            scan.inv(),
            scan@ == Seq::<u32>::empty(),
            scan.channel_count() == channels,
            scan.chunk() == chunk,
            scan.in_chunk() == 0,
    {
        let mut chunk_max: Vec<u32> = Vec::new();
        let mut peaks: Vec<Vec<u32>> = Vec::new();
        let mut c: usize = 0;
        while c < channels
            invariant
                c <= channels,
                chunk_max@.len() == c,
                peaks@.len() == c,
                forall|k: int| 0 <= k < c ==> chunk_max@[k] == 0,
                forall|k: int| 0 <= k < c ==> (#[trigger] peaks@[k])@.len() == 0,
            decreases channels - c,
        {
            chunk_max.push(0);
            peaks.push(Vec::new());
            c += 1;
        }
        let scan: PeakScan = PeakScan {
            channels,
            clock: ChunkClock::new(chunk),
            chunk_max,
            peaks,
            seen: Ghost(Seq::empty()),
            frames: Ghost(0),
            done: Ghost(0),
        };
        proof {
            assert(0 * channels == 0);
            assert(0 * chunk == 0);
            assert forall|k: int| 0 <= k < channels implies (#[trigger] scan.peaks@[k])@
                == full_peaks(scan.seen@, channels as int, k, chunk as int, 0) by {
                assert(scan.peaks@[k]@ =~= full_peaks(scan.seen@, channels as int, k, chunk as int, 0));
            }
        }
        scan
    }

    /// Scans one frame; says whether that completed a chunk.
    pub fn push_frame(&mut self, frame: &[u32]) -> (done: bool)
        requires
            old(self).inv(),
            frame@.len() == old(self).channel_count(),
        ensures
            final(self).inv(),
            final(self)@ == old(self)@ + frame@,
            final(self).channel_count() == old(self).channel_count(),
            final(self).chunk() == old(self).chunk(),
            done == (old(self).in_chunk() + 1 == old(self).chunk()),
            final(self).in_chunk() == (if done { 0 } else { old(self).in_chunk() + 1 }),
    {
        let channels: usize = self.channels;
        let ghost chunk = self.clock.size as int;
        let ghost before = self.seen@;
        let ghost after = self.seen@ + frame@;
        let ghost frames = self.frames@;
        let ghost full = self.done@;
        assert(0 <= full * chunk) by (nonlinear_arith)
            requires
                full >= 0,
                chunk > 0,
        ;
        let mut c: usize = 0;
        while c < channels
            invariant
                c <= channels,
                channels > 0,
                frame@.len() == channels,
                frames >= 0,
                full >= 0,
                0 <= full * chunk <= frames,
                before.len() == frames * channels,
                after == before + frame@,
                self.channels == channels,
                self.clock == old(self).clock,
                self.peaks == old(self).peaks,
                self.seen == old(self).seen,
                self.frames == old(self).frames,
                self.done == old(self).done,
                self.chunk_max@.len() == channels,
                forall|k: int|
                    c <= k < channels ==> #[trigger] self.chunk_max@[k] == peak_between(
                        before,
                        channels as int,
                        k,
                        full * chunk,
                        frames,
                    ),
                forall|k: int|
                    0 <= k < c ==> #[trigger] self.chunk_max@[k] == peak_between(
                        after,
                        channels as int,
                        k,
                        full * chunk,
                        frames + 1,
                    ),
            decreases channels - c,
        {
            let sample: u32 = frame[c];
            let v: u32 = f32_abs(sample);
            if v <= F32_INF && v > self.chunk_max[c] {
                self.chunk_max[c] = v;
            }
            proof {
                lemma_peak_prefix(before, frame@, channels as int, c as int, full * chunk, frames);
                assert(after[frames * channels + c] == sample);
                assert(self.chunk_max@[c as int] == peak_between(
                    after,
                    channels as int,
                    c as int,
                    full * chunk,
                    frames + 1,
                ));
            }
            c += 1;
        }
        let done: bool = self.clock.tick();
        self.seen = Ghost(after);
        self.frames = Ghost(frames + 1);
        proof {
            assert((frames + 1) * channels == frames * channels + channels) by (nonlinear_arith);
            assert forall|k: int| 0 <= k < channels implies (#[trigger] self.peaks@[k])@
                == full_peaks(after, channels as int, k, chunk, full) by {
                lemma_full_peaks_prefix(before, frame@, channels as int, k, chunk, full, frames);
            }
        }
        if done {
            proof {
                assert((full + 1) * chunk == full * chunk + chunk) by (nonlinear_arith);
            }
            let mut c: usize = 0;
            while c < channels
                invariant
                    c <= channels,
                    channels > 0,
                    full >= 0,
                    frames + 1 == (full + 1) * chunk,
                    self.channels == channels,
                    self.clock.size == chunk,
                    self.clock.filled == 0,
                    self.clock.inv(),
                    self.seen@ == after,
                    self.frames@ == frames + 1,
                    self.chunk_max@.len() == channels,
                    self.peaks@.len() == channels,
                    forall|k: int|
                        c <= k < channels ==> #[trigger] self.chunk_max@[k] == peak_between(
                            after,
                            channels as int,
                            k,
                            full * chunk,
                            frames + 1,
                        ),
                    forall|k: int| 0 <= k < c ==> #[trigger] self.chunk_max@[k] == 0,
                    forall|k: int|
                        c <= k < channels ==> (#[trigger] self.peaks@[k])@ == full_peaks(
                            after,
                            channels as int,
                            k,
                            chunk,
                            full,
                        ),
                    forall|k: int|
                        0 <= k < c ==> (#[trigger] self.peaks@[k])@ == full_peaks(
                            after,
                            channels as int,
                            k,
                            chunk,
                            full + 1,
                        ),
                decreases channels - c,
            {
                let peak: u32 = self.chunk_max[c];
                self.peaks[c].push(peak);
                self.chunk_max[c] = 0;
                assert(self.peaks@[c as int]@ =~= full_peaks(
                    after,
                    channels as int,
                    c as int,
                    chunk,
                    full + 1,
                ));
                c += 1;
            }
            self.done = Ghost(full + 1);
        }
        done
    }

    /// Frames in the chunk that is not complete yet.
    pub fn pending(&self) -> (frames: usize)
        ensures
            frames == self.in_chunk(),
    {
        self.clock.filled
    }

    /// The peaks of all that was scanned, the last chunk possibly shorter.
    pub fn finish(self) -> (peaks: Vec<Vec<u32>>)
        requires
            self.inv(),
        ensures
            crate::audio::decode::rows_view(peaks@) == all_peaks(
                self@,
                self.channel_count(),
                self.chunk(),
            ),
    {
        let channels: usize = self.channels;
        let filled: usize = self.clock.filled;
        let ghost chunk = self.clock.size as int;
        let ghost seen = self.seen@;
        let ghost frames = self.frames@;
        let ghost full = self.done@;
        let chunk_max: Vec<u32> = self.chunk_max;
        let mut peaks: Vec<Vec<u32>> = self.peaks;
        proof {
            vstd::arithmetic::div_mod::lemma_div_multiples_vanish(frames, channels as int);
            assert(frames * channels == channels * frames) by (nonlinear_arith);
            assert(seen.len() as int / channels as int == frames);
            lemma_chunk_count(frames, chunk, full, filled as int);
        }
        let mut c: usize = 0;
        while c < channels
            invariant
                c <= channels,
                channels > 0,
                chunk > filled,
                full >= 0,
                frames == full * chunk + filled,
                seen.len() as int / channels as int == frames,
                chunk_count(frames, chunk) == full + (if filled > 0 { 1int } else { 0int }),
                chunk_max@.len() == channels,
                peaks@.len() == channels,
                forall|k: int|
                    0 <= k < channels ==> #[trigger] chunk_max@[k] == peak_between(
                        seen,
                        channels as int,
                        k,
                        full * chunk,
                        frames,
                    ),
                forall|k: int|
                    c <= k < channels ==> (#[trigger] peaks@[k])@ == full_peaks(
                        seen,
                        channels as int,
                        k,
                        chunk,
                        full,
                    ),
                forall|k: int|
                    0 <= k < c ==> (#[trigger] peaks@[k])@ == channel_peaks(
                        seen,
                        channels as int,
                        k,
                        chunk,
                    ),
            decreases channels - c,
        {
            if filled > 0 {
                let peak: u32 = chunk_max[c];
                peaks[c].push(peak);
            }
            proof {
                let row = peaks@[c as int]@;
                let want = channel_peaks(seen, channels as int, c as int, chunk);
                assert forall|k: int| 0 <= k < row.len() implies row[k] == want[k] by {
                    if k < full {
                        assert((k + 1) * chunk <= full * chunk) by (nonlinear_arith)
                            requires
                                k < full,
                                chunk > 0,
                        ;
                        if (k + 1) * chunk >= frames {
                            assert((k + 1) * chunk == frames);
                        }
                    } else {
                        assert((k + 1) * chunk == full * chunk + chunk) by (nonlinear_arith)
                            requires
                                k == full,
                        ;
                    }
                }
                assert(row =~= want);
            }
            c += 1;
        }
        assert(crate::audio::decode::rows_view(peaks@) =~= all_peaks(seen, channels as int, chunk));
        peaks
    }
}

/// The peaks of the first `n` complete chunks of channel `c`.
pub open spec fn full_peaks(samples: Seq<u32>, channels: int, c: int, chunk: int, n: int) -> Seq<
    u32,
> {
    Seq::new(
        n as nat,
        |k: int| peak_between(samples, channels, c, k * chunk, (k + 1) * chunk),
    )
}

/// Full chunks, and one for what is left over.
pub proof fn lemma_chunk_count(total: int, chunk: int, full: int, filled: int)
    requires
        0 <= filled < chunk,
        full >= 0,
        total == full * chunk + filled,
    ensures
        chunk_count(total, chunk) == full + (if filled > 0 { 1int } else { 0int }),
{
    if filled > 0 {
        assert(total + chunk - 1 == (full + 1) * chunk + (filled - 1)) by (nonlinear_arith)
            requires
                total == full * chunk + filled,
        ;
        vstd::arithmetic::div_mod::lemma_fundamental_div_mod_converse(
            total + chunk - 1,
            chunk,
            full + 1,
            filled - 1,
        );
    } else {
        vstd::arithmetic::div_mod::lemma_fundamental_div_mod_converse(
            total + chunk - 1,
            chunk,
            full,
            chunk - 1,
        );
    }
}

/// A peak depends on its own frames only: samples that follow do not change it.
proof fn lemma_peak_prefix(
    samples: Seq<u32>,
    more: Seq<u32>,
    channels: int,
    c: int,
    lo: int,
    hi: int,
)
    requires
        0 <= c < channels,
        0 <= lo,
        hi * channels <= samples.len(),
    ensures
        peak_between(samples + more, channels, c, lo, hi) == peak_between(
            samples,
            channels,
            c,
            lo,
            hi,
        ),
    decreases hi - lo,
{
    if lo < hi {
        assert((hi - 1) * channels + channels == hi * channels) by (nonlinear_arith);
        assert(0 <= (hi - 1) * channels) by (nonlinear_arith)
            requires
                hi >= 1,
                channels > 0,
        ;
        lemma_peak_prefix(samples, more, channels, c, lo, hi - 1);
        assert((samples + more)[(hi - 1) * channels + c] == samples[(hi - 1) * channels + c]);
    }
}

proof fn lemma_full_peaks_prefix(
    samples: Seq<u32>,
    more: Seq<u32>,
    channels: int,
    c: int,
    chunk: int,
    n: int,
    frames: int,
)
    requires
        0 <= c < channels,
        chunk > 0,
        n >= 0,
        n * chunk <= frames,
        samples.len() == frames * channels,
    ensures
        full_peaks(samples + more, channels, c, chunk, n) == full_peaks(
            samples,
            channels,
            c,
            chunk,
            n,
        ),
{
    let longer = full_peaks(samples + more, channels, c, chunk, n);
    let shorter = full_peaks(samples, channels, c, chunk, n);
    assert forall|k: int| 0 <= k < n implies #[trigger] longer[k] == shorter[k] by {
        assert((k + 1) * chunk <= n * chunk) by (nonlinear_arith)
            requires
                k < n,
                chunk > 0,
        ;
        assert(0 <= k * chunk) by (nonlinear_arith)
            requires
                k >= 0,
                chunk > 0,
        ;
        assert((k + 1) * chunk * channels <= frames * channels) by (nonlinear_arith)
            requires
                (k + 1) * chunk <= frames,
                channels > 0,
        ;
        lemma_peak_prefix(samples, more, channels, c, k * chunk, (k + 1) * chunk);
    }
    assert(longer =~= shorter);
}

/// The peaks of interleaved samples, one row per channel.
pub fn compute_peaks(samples: &[u32], channels: usize, sample_rate: u32) -> (peaks: Vec<Vec<u32>>)
    requires
        channels > 0,
    ensures
        crate::audio::decode::rows_view(peaks@) == all_peaks(
            samples@,
            channels as int,
            chunk_size(sample_rate as int),
        ),
{
    let mut scan: PeakScan = PeakScan::new(channels, chunk_frames(sample_rate));
    let total: usize = samples.len() / channels;
    let mut f: usize = 0;
    let mut at: usize = 0;
    proof {
        vstd::arithmetic::div_mod::lemma_fundamental_div_mod(samples@.len() as int, channels as int);
        vstd::arithmetic::div_mod::lemma_mod_bound(samples@.len() as int, channels as int);
        assert(total * channels == channels * total) by (nonlinear_arith);
        assert(scan@ =~= samples@.take(0));
    }
    while f < total
        invariant
            f <= total,
            channels > 0,
            at == f * channels,
            total * channels <= samples@.len() <= usize::MAX,
            scan.inv(),
            scan.channel_count() == channels,
            scan.chunk() == chunk_size(sample_rate as int),
            scan@ == samples@.take(f * channels),
        decreases total - f,
    {
        assert(f * channels + channels <= total * channels) by (nonlinear_arith)
            requires
                f < total,
                channels > 0,
        ;
        scan.push_frame(vstd::slice::slice_subrange(samples, at, at + channels));
        assert((f + 1) * channels == f * channels + channels) by (nonlinear_arith);
        assert(scan@ =~= samples@.take((f + 1) * channels));
        at += channels;
        f += 1;
    }
    proof {
        lemma_peaks_of_whole_frames(samples@, channels as int, chunk_size(sample_rate as int), total as int);
    }
    scan.finish()
}

/// Samples after the last whole frame do not count.
pub proof fn lemma_peaks_of_whole_frames(samples: Seq<u32>, channels: int, chunk: int, total: int)
    requires
        channels > 0,
        chunk > 0,
        total == samples.len() as int / channels,
    ensures
        all_peaks(samples.take(total * channels), channels, chunk) == all_peaks(
            samples,
            channels,
            chunk,
        ),
{
    vstd::arithmetic::div_mod::lemma_fundamental_div_mod(samples.len() as int, channels);
    vstd::arithmetic::div_mod::lemma_mod_bound(samples.len() as int, channels);
    assert(total * channels == channels * total) by (nonlinear_arith);
    let whole = samples.take(total * channels);
    let rest = samples.skip(total * channels);
    assert(whole + rest =~= samples);
    vstd::arithmetic::div_mod::lemma_div_multiples_vanish(total, channels);
    assert forall|c: int| 0 <= c < channels implies channel_peaks(whole, channels, c, chunk)
        == channel_peaks(samples, channels, c, chunk) by {
        assert forall|k: int| 0 <= k < chunk_count(total, chunk) implies channel_peaks(
            whole,
            channels,
            c,
            chunk,
        )[k] == channel_peaks(samples, channels, c, chunk)[k] by {
            let hi = if (k + 1) * chunk < total { (k + 1) * chunk } else { total };
            assert(0 <= k * chunk) by (nonlinear_arith)
                requires
                    k >= 0,
                    chunk > 0,
            ;
            assert(hi * channels <= total * channels) by (nonlinear_arith)
                requires
                    hi <= total,
                    channels > 0,
            ;
            lemma_peak_prefix(whole, rest, channels, c, k * chunk, hi);
        }
        assert(channel_peaks(whole, channels, c, chunk) =~= channel_peaks(
            samples,
            channels,
            c,
            chunk,
        ));
    }
    assert(all_peaks(whole, channels, chunk) =~= all_peaks(samples, channels, chunk));
}

/// A peak is the largest absolute value among its samples: none of them that is a number
/// exceeds it, and it is 0 or the absolute value of one of them.
pub proof fn law_peak_is_largest(samples: Seq<u32>, channels: int, c: int, lo: int, hi: int)
    ensures
        forall|f: int|
            lo <= f < hi && !bits::f32_nan(#[trigger] samples[f * channels + c])
                ==> bits::f32_magnitude(samples[f * channels + c]) <= peak_between(
                samples,
                channels,
                c,
                lo,
                hi,
            ),
        peak_between(samples, channels, c, lo, hi) == 0 || exists|f: int|
            lo <= f < hi && !bits::f32_nan(#[trigger] samples[f * channels + c])
                && bits::f32_magnitude(samples[f * channels + c]) == peak_between(
                samples,
                channels,
                c,
                lo,
                hi,
            ),
    decreases hi - lo,
{
    if lo < hi {
        law_peak_is_largest(samples, channels, c, lo, hi - 1);
        let last = samples[(hi - 1) * channels + c];
        let before = peak_between(samples, channels, c, lo, hi - 1);
        assert(peak_between(samples, channels, c, lo, hi) == louder(before, last));
        if peak_between(samples, channels, c, lo, hi) != before {
            assert(!bits::f32_nan(samples[(hi - 1) * channels + c]));
        }
    }
}

/// A chunk is a hundredth of a second at every sample rate, rounded down to whole frames.
pub proof fn law_chunk_is_a_hundredth_of_a_second(sample_rate: int)
    requires
        sample_rate >= 0,
    ensures
        sample_rate >= 100 ==> 100 * chunk_size(sample_rate) <= sample_rate < 100 * (chunk_size(
            sample_rate,
        ) + 1),
        sample_rate < 100 ==> chunk_size(sample_rate) == 1,
{
}

/// A second has a hundred peaks in each channel, where its frames divide evenly.
pub proof fn law_hundred_peaks_per_second(
    samples: Seq<u32>,
    channels: int,
    sample_rate: int,
    secs: int,
    c: int,
)
    requires
        channels > 0,
        sample_rate > 0,
        sample_rate % 100 == 0,
        secs >= 0,
        samples.len() == secs * sample_rate * channels,
        0 <= c < channels,
    ensures
        all_peaks(samples, channels, chunk_size(sample_rate)).len() == channels,
        all_peaks(samples, channels, chunk_size(sample_rate))[c].len() == 100 * secs,
{
    let chunk = chunk_size(sample_rate);
    let total = secs * sample_rate;
    assert(sample_rate == 100 * chunk);
    vstd::arithmetic::div_mod::lemma_div_multiples_vanish(total, channels);
    assert(total * channels == channels * total) by (nonlinear_arith);
    assert(total == (100 * secs) * chunk + 0) by (nonlinear_arith)
        requires
            total == secs * sample_rate,
            sample_rate == 100 * chunk,
    ;
    lemma_chunk_count(total, chunk, 100 * secs, 0);
}

/// Every frame counts toward the peak of its own chunk, and toward no other: a peak is the
/// largest absolute value among the frames of its chunk, or 0 where none of them is a number.
pub proof fn law_each_peak_is_the_loudest_of_its_chunk(
    samples: Seq<u32>,
    channels: int,
    chunk: int,
    c: int,
    k: int,
)
    requires
        channels > 0,
        chunk > 0,
        0 <= c < channels,
        0 <= k < all_peaks(samples, channels, chunk)[c].len(),
    ensures
        ({
            let total = samples.len() as int / channels;
            let peak = all_peaks(samples, channels, chunk)[c][k];
            &&& forall|f: int|
                k * chunk <= f < (k + 1) * chunk && f < total && !bits::f32_nan(
                    #[trigger] samples[f * channels + c],
                ) ==> bits::f32_magnitude(samples[f * channels + c]) <= peak
            &&& peak == 0 || exists|f: int|
                k * chunk <= f < (k + 1) * chunk && f < total && !bits::f32_nan(
                    #[trigger] samples[f * channels + c],
                ) && bits::f32_magnitude(samples[f * channels + c]) == peak
        }),
{
    let total = samples.len() as int / channels;
    let hi = if (k + 1) * chunk < total { (k + 1) * chunk } else { total };
    law_peak_is_largest(samples, channels, c, k * chunk, hi);
}

/// Every frame has a chunk: the last one may be shorter, but none is left out and none is empty.
pub proof fn law_chunks_cover_all_frames(total: int, chunk: int)
    requires
        total >= 0,
        chunk > 0,
    ensures
        chunk_count(total, chunk) * chunk >= total,
        chunk_count(total, chunk) > 0 ==> (chunk_count(total, chunk) - 1) * chunk < total,
        total == 0 ==> chunk_count(total, chunk) == 0,
{
    vstd::arithmetic::div_mod::lemma_fundamental_div_mod(total, chunk);
    vstd::arithmetic::div_mod::lemma_mod_bound(total, chunk);
    vstd::arithmetic::div_mod::lemma_div_pos_is_pos(total, chunk);
    let (q, r) = (total / chunk, total % chunk);
    assert(q * chunk == chunk * q) by (nonlinear_arith);
    lemma_chunk_count(total, chunk, q, r);
    let n = chunk_count(total, chunk);
    assert((q + 1) * chunk == q * chunk + chunk) by (nonlinear_arith);
    assert((q - 1) * chunk == q * chunk - chunk) by (nonlinear_arith);
    if total == 0 {
        assert(q == 0) by (nonlinear_arith)
            requires
                0 == chunk * q + r,
                0 <= r,
                q >= 0,
                chunk > 0,
        ;
    }
}

} // verus!
