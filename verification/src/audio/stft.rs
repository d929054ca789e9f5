//! Bookkeeping of the short-time spectrum: which samples are in the analysis window, when a
//! column is due, and where its bytes go.

use vstd::prelude::*;
use crate::audio::decode::{SpecLayer, SpectrogramData};
#[allow(unused_imports)]
use crate::audio::decode::{LayerView, SpectrogramView};
use crate::audio::peaks::ChunkClock;

verus! {

/// Samples in the analysis window.
pub const STFT_SIZE: usize = 4096;

/// Lowest pitch of the grid, A0.
pub const MIDI_LO: u8 = 21;

/// Highest pitch of the grid, C8.
pub const MIDI_HI: u8 = 108;

/// Bins per semitone of the raw layer.
pub const RAW_BPST: usize = 2;

/// Harmonics summed for the salience layer.
pub const HARMONICS: usize = 12;

/// Bins of a raw column: `RAW_BPST` per semitone, both ends counted.
pub const RAW_BINS: usize = 175;

/// Bins of a salience column: one per pitch.
pub const SAL_BINS: usize = 88;

/// Frames between two columns: a twentieth of a second, at least one.
pub open spec fn hop_size(sample_rate: int) -> int {
    if sample_rate / 20 > 1 {
        sample_rate / 20
    } else {
        1
    }
}

/// Frames between two columns.
pub fn hop_frames(sample_rate: u32) -> (hop: usize)
    ensures
        hop == hop_size(sample_rate as int),
        hop > 0,
{
    let hop: u32 = sample_rate / 20;
    if hop > 1 {
        hop as usize
    } else {
        1
    }
}

/// A window after more samples: it keeps its length and drops its oldest ones.
pub open spec fn slide(window: Seq<u32>, more: Seq<u32>) -> Seq<u32> {
    (window + more).skip(more.len() as int)
}

/// Keeps the last `STFT_SIZE` mono samples and the columns computed from them.
pub struct StftAccumulator {
    clock: ChunkClock,
    ring: Vec<u32>,
    ring_write: usize,
    raw_cols: Vec<u8>,
    sal_cols: Vec<u8>,
    col_count: usize,
}

impl StftAccumulator {
    pub closed spec fn inv(&self) -> bool {
        &&& self.clock.inv()
        &&& self.ring@.len() == STFT_SIZE
        &&& self.ring_write < STFT_SIZE
        &&& self.raw_cols@.len() == self.col_count * RAW_BINS
        &&& self.sal_cols@.len() == self.col_count * SAL_BINS
    }

    /// The analysis window, oldest sample first.
    pub closed spec fn window_view(&self) -> Seq<u32> {
        Seq::new(
            STFT_SIZE as nat,
            |i: int| self.ring@[(self.ring_write + i) % (STFT_SIZE as int)],
        )
    }

    pub closed spec fn hop(&self) -> int {
        self.clock.size as int
    }

    /// Frames since the last column was due.
    pub closed spec fn since_hop(&self) -> int {
        self.clock.filled as int
    }

    /// Bytes of the raw columns so far.
    pub closed spec fn raw(&self) -> Seq<u8> {
        self.raw_cols@
    }

    /// Bytes of the salience columns so far.
    pub closed spec fn salience(&self) -> Seq<u8> {
        self.sal_cols@
    }

    /// Number of columns so far.
    pub closed spec fn cols(&self) -> int {
        self.col_count as int
    }

    /// An empty accumulator; the window holds zeros.
    pub fn new(sample_rate: u32) -> (acc: StftAccumulator)
        ensures
            acc.inv(),
            acc.window_view() == Seq::new(STFT_SIZE as nat, |i: int| 0u32),
            acc.hop() == hop_size(sample_rate as int),
            acc.since_hop() == 0,
            acc.raw() == Seq::<u8>::empty(),
            acc.salience() == Seq::<u8>::empty(),
            acc.cols() == 0,
    {
        let mut ring: Vec<u32> = Vec::with_capacity(STFT_SIZE);
        let mut i: usize = 0;
        while i < STFT_SIZE
            invariant
                i <= STFT_SIZE,
                ring@.len() == i,
                forall|k: int| 0 <= k < i ==> ring@[k] == 0,
            decreases STFT_SIZE - i,
        {
            ring.push(0);
            i += 1;
        }
        let acc: StftAccumulator = StftAccumulator {
            clock: ChunkClock::new(hop_frames(sample_rate)),
            ring,
            ring_write: 0,
            raw_cols: Vec::new(),
            sal_cols: Vec::new(),
            col_count: 0,
        };
        assert(acc.window_view() =~= Seq::new(STFT_SIZE as nat, |i: int| 0u32));
        acc
    }

    /// Takes one mono sample; says whether a column is due now.
    pub fn push(&mut self, mono: u32) -> (due: bool)
        requires
            old(self).inv(),
        ensures
            final(self).inv(),
            final(self).window_view() == slide(old(self).window_view(), seq![mono]),
            final(self).hop() == old(self).hop(),
            due == (old(self).since_hop() + 1 == old(self).hop()),
            final(self).since_hop() == (if due { 0 } else { old(self).since_hop() + 1 }),
            final(self).raw() == old(self).raw(),
            final(self).salience() == old(self).salience(),
            final(self).cols() == old(self).cols(),
    {
        let ghost before = self.window_view();
        let ghost at = self.ring_write as int;
        let ghost ring = self.ring@;
        let slot: usize = self.ring_write;
        self.ring[slot] = mono;
        self.ring_write = (slot + 1) % STFT_SIZE;
        proof {
            let want = slide(before, seq![mono]);
            let have = self.window_view();
            assert forall|i: int| 0 <= i < STFT_SIZE implies have[i] == want[i] by {
                if i + 1 < STFT_SIZE {
                    assert((self.ring_write + i) % (STFT_SIZE as int) == (at + (i + 1)) % (
                    STFT_SIZE as int));
                    assert((at + (i + 1)) % (STFT_SIZE as int) != at);
                    assert(want[i] == before[i + 1]);
                } else {
                    assert((self.ring_write + i) % (STFT_SIZE as int) == at);
                }
            }
            assert(have =~= want);
        }
        self.clock.tick()
    }

    /// The analysis window, oldest sample first.
    pub fn window(&self) -> (window: Vec<u32>)
        requires
            self.inv(),
        ensures
            window@ == self.window_view(),
    {
        let mut window: Vec<u32> = Vec::with_capacity(STFT_SIZE);
        let mut i: usize = 0;
        while i < STFT_SIZE
            invariant
                i <= STFT_SIZE,
                self.inv(),
                window@ == self.window_view().take(i as int),
            decreases STFT_SIZE - i,
        {
            window.push(self.ring[(self.ring_write + i) % STFT_SIZE]);
            assert(window@ =~= self.window_view().take(i + 1));
            i += 1;
        }
        assert(self.window_view().take(i as int) =~= self.window_view());
        window
    }

    /// Appends the bytes of a column to both layers.
    pub fn add_column(&mut self, raw: &[u8], salience: &[u8])
        requires
            old(self).inv(),
            raw@.len() == RAW_BINS,
            salience@.len() == SAL_BINS,
        ensures
            final(self).inv(),
            final(self).window_view() == old(self).window_view(),
            final(self).hop() == old(self).hop(),
            final(self).since_hop() == old(self).since_hop(),
            final(self).raw() == old(self).raw() + raw@,
            final(self).salience() == old(self).salience() + salience@,
            final(self).cols() == old(self).cols() + 1,
    {
        let bytes: usize = self.raw_cols.len();
        assert(self.col_count * RAW_BINS == bytes);
        self.raw_cols.extend_from_slice(raw);
        self.sal_cols.extend_from_slice(salience);
        self.col_count += 1;
        assert(self.raw_cols@ =~= old(self).raw_cols@ + raw@);
        assert(self.sal_cols@ =~= old(self).sal_cols@ + salience@);
        assert(self.window_view() =~= old(self).window_view());
    }

    /// The spectrogram of all columns; `cols_per_sec` is the bit pattern of a single.
    pub fn finish(self, cols_per_sec: u32) -> (spec: SpectrogramData)
        requires
            self.inv(),
        ensures
            spec@ == (SpectrogramView {
                cols: self.cols(),
                cols_per_sec,
                midi_lo: MIDI_LO,
                midi_hi: MIDI_HI,
                raw: LayerView { bytes: self.raw(), bins: RAW_BINS as int },
                salience: LayerView { bytes: self.salience(), bins: SAL_BINS as int },
            }),
            spec.raw.bytes@.len() == spec.cols * spec.raw.bins,
            spec.salience.bytes@.len() == spec.cols * spec.salience.bins,
    {
        SpectrogramData {
            cols: self.col_count,
            cols_per_sec,
            midi_lo: MIDI_LO,
            midi_hi: MIDI_HI,
            raw: SpecLayer { bytes: self.raw_cols, bins: RAW_BINS },
            salience: SpecLayer { bytes: self.sal_cols, bins: SAL_BINS },
        }
    }
}

/// The grid covers the 88 piano keys: one salience bin per pitch, and the raw bins end on the
/// highest pitch.
pub proof fn law_grid_covers_the_keyboard()
    ensures
        SAL_BINS == MIDI_HI - MIDI_LO + 1,
        RAW_BINS == (MIDI_HI - MIDI_LO) * RAW_BPST + 1,
{
}

/// Sliding twice is sliding once by both.
pub proof fn law_slide_composes(window: Seq<u32>, first: Seq<u32>, second: Seq<u32>)
    ensures
        slide(slide(window, first), second) == slide(window, first + second),
{
    assert(slide(slide(window, first), second) =~= slide(window, first + second));
}

/// Once the window has slid by at least its own length, it holds the last samples only.
pub proof fn law_window_holds_the_last_samples(window: Seq<u32>, more: Seq<u32>)
    requires
        more.len() >= window.len(),
    ensures
        slide(window, more) == more.skip(more.len() - window.len()),
{
    assert(slide(window, more) =~= more.skip(more.len() - window.len()));
}

/// A hop is a twentieth of a second at every sample rate, rounded down to whole frames: there are
/// twenty columns to the second.
pub proof fn law_hop_is_a_twentieth_of_a_second(sample_rate: int)
    requires
        sample_rate >= 0,
    ensures
        sample_rate >= 20 ==> 20 * hop_size(sample_rate) <= sample_rate < 20 * (hop_size(
            sample_rate,
        ) + 1),
        sample_rate < 20 ==> hop_size(sample_rate) == 1,
{
}

/// A window keeps its length; it holds the newest samples at its end, and before them what it
/// held, moved along.
pub proof fn law_window_moves_along(window: Seq<u32>, more: Seq<u32>, i: int)
    requires
        0 <= i < window.len(),
    ensures
        slide(window, more).len() == window.len(),
        i + more.len() < window.len() ==> slide(window, more)[i] == window[i + more.len()],
        i + more.len() >= window.len() ==> slide(window, more)[i] == more[i + more.len()
            - window.len()],
{
}

} // verus!
