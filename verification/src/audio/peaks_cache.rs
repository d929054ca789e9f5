//! The peaks cache: waveform peaks, bass peaks and spectrogram kept next to their source file.
//!
//! Layout: 8 bytes magic, sample rate, channels (32 bits each), duration (64 bits), peaks per
//! channel, bass peaks per channel, spectrogram columns, columns per second (32 bits each),
//! lowest and highest pitch (8 bits each), bins of the raw and of the salience layer (32 bits
//! each); then the peaks and the bass peaks, channel by channel (32 bits each), and the bytes
//! of the two layers. All numbers are little-endian.

use vstd::prelude::*;
use crate::audio::decode::{AudioMeta, SpecLayer, SpectrogramData};
#[allow(unused_imports)]
use crate::audio::decode::{LayerView, MetaView, SpectrogramView};
use crate::audio::words;
use crate::audio::words::{push_bytes, push_long, push_word, push_words, read_long, read_word, read_words};

verus! {

/// "PEAKS002".
pub const PEAKS_MAGIC: [u8; 8] = [0x50, 0x45, 0x41, 0x4b, 0x53, 0x30, 0x30, 0x32];

/// Length of the first row, 0 when there is none.
pub open spec fn first_len(rows: Seq<Seq<u32>>) -> int {
    if rows.len() > 0 {
        rows[0].len() as int
    } else {
        0
    }
}

/// The low 32 bits of a number.
pub open spec fn low_word(x: int) -> u32 {
    (x % 4294967296) as u32
}

/// The bytes before the payload.
pub open spec fn peaks_header(meta: MetaView) -> Seq<u8> {
    let spec = meta.spectrogram;
    PEAKS_MAGIC@ + words::word_bytes(meta.sample_rate as u32) + words::word_bytes(
        low_word(meta.channels),
    ) + words::long_bytes(meta.duration_secs) + words::word_bytes(low_word(first_len(meta.peaks)))
        + words::word_bytes(low_word(first_len(meta.bass_peaks))) + words::word_bytes(
        low_word(spec.cols),
    ) + words::word_bytes(spec.cols_per_sec) + seq![spec.midi_lo, spec.midi_hi]
        + words::word_bytes(low_word(spec.raw.bins)) + words::word_bytes(
        low_word(spec.salience.bins),
    )
}

/// The bytes of a table, row by row.
pub open spec fn rows_bytes(rows: Seq<Seq<u32>>) -> Seq<u8>
    decreases rows.len(),
{
    if rows.len() == 0 {
        Seq::empty()
    } else {
        rows_bytes(rows.drop_last()) + words::words_bytes(rows.last())
    }
}

/// The whole cache file.
pub open spec fn peaks_file(meta: MetaView) -> Seq<u8> {
    peaks_header(meta) + rows_bytes(meta.peaks) + rows_bytes(meta.bass_peaks)
        + meta.spectrogram.raw.bytes + meta.spectrogram.salience.bytes
}

/// A table of `channels` rows of `n` numbers whose bytes start at `at`.
pub open spec fn rows_at(file: Seq<u8>, at: int, channels: nat, n: nat) -> Seq<Seq<u32>> {
    Seq::new(channels, |c: int| words::words_at(file, at + 4 * n * c, n))
}

/// What a header says of the payload: where each part ends.
pub open spec fn peaks_end(file: Seq<u8>) -> int {
    50 + 4 * words::word_at(file, 24) * words::word_at(file, 12)
}

pub open spec fn bass_end(file: Seq<u8>) -> int {
    peaks_end(file) + 4 * words::word_at(file, 28) * words::word_at(file, 12)
}

pub open spec fn raw_end(file: Seq<u8>) -> int {
    bass_end(file) + words::word_at(file, 32) * words::word_at(file, 42)
}

pub open spec fn salience_end(file: Seq<u8>) -> int {
    raw_end(file) + words::word_at(file, 32) * words::word_at(file, 46)
}

/// Whether a file is a peaks cache: the magic, a sample rate and a channel count that are not
/// zero, and the whole payload.
pub open spec fn peaks_file_ok(file: Seq<u8>) -> bool {
    &&& file.len() >= 50
    &&& file.take(8) == PEAKS_MAGIC@
    &&& words::word_at(file, 8) != 0
    &&& words::word_at(file, 12) != 0
    &&& salience_end(file) <= file.len()
}

/// What a peaks cache holds. Bytes after the payload do not matter.
pub open spec fn peaks_contents(file: Seq<u8>) -> MetaView {
    let channels = words::word_at(file, 12) as nat;
    MetaView {
        channels: channels as int,
        sample_rate: words::word_at(file, 8) as int,
        duration_secs: words::long_at(file, 16),
        peaks: rows_at(file, 50, channels, words::word_at(file, 24) as nat),
        bass_peaks: rows_at(file, peaks_end(file), channels, words::word_at(file, 28) as nat),
        spectrogram: SpectrogramView {
            cols: words::word_at(file, 32) as int,
            cols_per_sec: words::word_at(file, 36),
            midi_lo: file[40],
            midi_hi: file[41],
            raw: LayerView {
                bytes: file.subrange(bass_end(file), raw_end(file)),
                bins: words::word_at(file, 42) as int,
            },
            salience: LayerView {
                bytes: file.subrange(raw_end(file), salience_end(file)),
                bins: words::word_at(file, 46) as int,
            },
        },
    }
}

fn low(x: usize) -> (w: u32)
    ensures
        w == low_word(x as int),
{
    (x as u64 % 4294967296) as u32
}

fn first_row_len(rows: &Vec<Vec<u32>>) -> (n: usize)
    ensures
        n == first_len(crate::audio::decode::rows_view(rows@)),
{
    if rows.len() > 0 {
        rows[0].len()
    } else {
        0
    }
}

fn push_rows(out: &mut Vec<u8>, rows: &Vec<Vec<u32>>)
    ensures
        final(out)@ == old(out)@ + rows_bytes(crate::audio::decode::rows_view(rows@)),
{
    let ghost view = crate::audio::decode::rows_view(rows@);
    let mut c: usize = 0;
    assert(out@ =~= old(out)@ + rows_bytes(view.take(0)));
    while c < rows.len()
        invariant
            c <= rows@.len(),
            view == crate::audio::decode::rows_view(rows@),
            out@ == old(out)@ + rows_bytes(view.take(c as int)),
        decreases rows@.len() - c,
    {
        push_words(out, rows[c].as_slice());
        proof {
            assert(view.take(c + 1).drop_last() =~= view.take(c as int));
            assert(out@ =~= old(out)@ + rows_bytes(view.take(c + 1)));
        }
        c += 1;
    }
    assert(view.take(c as int) =~= view);
}

/// The contents of the cache file for some analysis.
pub fn encode_peaks_cache(meta: &AudioMeta) -> (file: Vec<u8>)
    ensures
        file@ == peaks_file(meta@),
{
    let spec: &SpectrogramData = &meta.spectrogram;
    let mut out: Vec<u8> = Vec::new();
    push_bytes(&mut out, &PEAKS_MAGIC);
    push_word(&mut out, meta.sample_rate);
    push_word(&mut out, low(meta.channels));
    push_long(&mut out, meta.duration_secs);
    push_word(&mut out, low(first_row_len(&meta.peaks)));
    push_word(&mut out, low(first_row_len(&meta.bass_peaks)));
    push_word(&mut out, low(spec.cols));
    push_word(&mut out, spec.cols_per_sec);
    let ghost so_far = out@;
    out.push(spec.midi_lo);
    out.push(spec.midi_hi);
    assert(out@ =~= so_far + seq![spec.midi_lo, spec.midi_hi]);
    push_word(&mut out, low(spec.raw.bins));
    push_word(&mut out, low(spec.salience.bins));
    assert(out@ =~= peaks_header(meta@));
    push_rows(&mut out, &meta.peaks);
    push_rows(&mut out, &meta.bass_peaks);
    push_bytes(&mut out, spec.raw.bytes.as_slice());
    push_bytes(&mut out, spec.salience.bytes.as_slice());
    out
}

fn read_rows(file: &[u8], at: usize, channels: usize, n: usize) -> (rows: Vec<Vec<u32>>)
    requires
        at + 4 * n * channels <= file@.len(),
    ensures
        crate::audio::decode::rows_view(rows@) == rows_at(
            file@,
            at as int,
            channels as nat,
            n as nat,
        ),
{
    let mut rows: Vec<Vec<u32>> = Vec::new();
    let mut pos: usize = at;
    let mut c: usize = 0;
    assert(file.len() <= usize::MAX);
    while c < channels
        invariant
            c <= channels,
            file@.len() <= usize::MAX,
            at + 4 * n * channels <= file@.len(),
            pos == at + 4 * n * c,
            rows@.len() == c,
            forall|k: int|
                0 <= k < c ==> (#[trigger] rows@[k])@ == words::words_at(
                    file@,
                    at + 4 * n * k,
                    n as nat,
                ),
        decreases channels - c,
    {
        assert(4 * n * c + 4 * n <= 4 * n * channels) by (nonlinear_arith)
            requires
                c < channels,
                n >= 0,
        ;
        rows.push(read_words(file, pos, n));
        pos += 4 * n;
        c += 1;
        assert(4 * n * c == 4 * n * (c - 1) + 4 * n) by (nonlinear_arith);
    }
    assert(crate::audio::decode::rows_view(rows@) =~= rows_at(
        file@,
        at as int,
        channels as nat,
        n as nat,
    ));
    rows
}

fn magic_matches(file: &[u8]) -> (ok: bool)
    requires
        file@.len() >= 8,
    ensures
        ok == (file@.take(8) == PEAKS_MAGIC@),
{
    let mut i: usize = 0;
    while i < 8
        invariant
            i <= 8 <= file@.len(),
            forall|k: int| 0 <= k < i ==> file@[k] == PEAKS_MAGIC@[k],
        decreases 8 - i,
    {
        if file[i] != PEAKS_MAGIC[i] {
            assert(file@.take(8)[i as int] != PEAKS_MAGIC@[i as int]);
            return false;
        }
        i += 1;
    }
    assert(file@.take(8) =~= PEAKS_MAGIC@);
    true
}

/// What a cache file holds, if it is one.
pub fn decode_peaks_cache(file: &[u8]) -> (meta: Option<AudioMeta>)
    ensures
        match meta {
            Some(m) => peaks_file_ok(file@) && m@ == peaks_contents(file@),
            None => !peaks_file_ok(file@),
        },
{
    if file.len() < 50 || !magic_matches(file) {
        return None;
    }
    let sample_rate: u32 = read_word(file, 8);
    let channels: u32 = read_word(file, 12);
    let n_peaks: u32 = read_word(file, 24);
    let n_bass: u32 = read_word(file, 28);
    let cols: u32 = read_word(file, 32);
    let raw_bins: u32 = read_word(file, 42);
    let sal_bins: u32 = read_word(file, 46);
    if channels == 0 || sample_rate == 0 {
        return None;
    }
    proof {
        lemma_product_bound(n_peaks, channels);
        lemma_product_bound(n_bass, channels);
        lemma_product_bound(cols, raw_bins);
        lemma_product_bound(cols, sal_bins);
    }
    let bass_at: u128 = 50 + 4 * (n_peaks as u128 * channels as u128);
    let raw_at: u128 = bass_at + 4 * (n_bass as u128 * channels as u128);
    let sal_at: u128 = raw_at + cols as u128 * raw_bins as u128;
    let end: u128 = sal_at + cols as u128 * sal_bins as u128;
    proof {
        assert(4 * (n_peaks * channels) == 4 * n_peaks * channels) by (nonlinear_arith);
        assert(4 * (n_bass * channels) == 4 * n_bass * channels) by (nonlinear_arith);
        assert(end == salience_end(file@));
    }
    if end > file.len() as u128 {
        return None;
    }
    let peaks: Vec<Vec<u32>> = read_rows(file, 50, channels as usize, n_peaks as usize);
    let bass_peaks: Vec<Vec<u32>> = read_rows(
        file,
        bass_at as usize,
        channels as usize,
        n_bass as usize,
    );
    let raw_bytes: Vec<u8> = vstd::slice::slice_to_vec(
        vstd::slice::slice_subrange(file, raw_at as usize, sal_at as usize),
    );
    let sal_bytes: Vec<u8> = vstd::slice::slice_to_vec(
        vstd::slice::slice_subrange(file, sal_at as usize, end as usize),
    );
    let meta: AudioMeta = AudioMeta {
        channels: channels as usize,
        sample_rate,
        duration_secs: read_long(file, 16),
        peaks,
        bass_peaks,
        spectrogram: SpectrogramData {
            cols: cols as usize,
            cols_per_sec: read_word(file, 36),
            midi_lo: file[40],
            midi_hi: file[41],
            raw: SpecLayer { bytes: raw_bytes, bins: raw_bins as usize },
            salience: SpecLayer { bytes: sal_bytes, bins: sal_bins as usize },
        },
    };
    Some(meta)
}

proof fn lemma_product_bound(a: u32, b: u32)
    ensures
        0 <= a * b <= 0xffff_fffe_0000_0001,
{
    assert(0 <= a * b <= 0xffff_ffff * 0xffff_ffff) by (nonlinear_arith)
        requires
            0 <= a <= 0xffff_ffff,
            0 <= b <= 0xffff_ffff,
    ;
}

/// Where the fields of a header stand.
proof fn lemma_header_layout(
    magic: Seq<u8>,
    rate: Seq<u8>,
    channels: Seq<u8>,
    duration: Seq<u8>,
    n_peaks: Seq<u8>,
    n_bass: Seq<u8>,
    cols: Seq<u8>,
    per_sec: Seq<u8>,
    pitches: Seq<u8>,
    raw_bins: Seq<u8>,
    sal_bins: Seq<u8>,
    rest: Seq<u8>,
)
    requires
        magic.len() == 8,
        rate.len() == 4,
        channels.len() == 4,
        duration.len() == 8,
        n_peaks.len() == 4,
        n_bass.len() == 4,
        cols.len() == 4,
        per_sec.len() == 4,
        pitches.len() == 2,
        raw_bins.len() == 4,
        sal_bins.len() == 4,
    ensures
        ({
            let file = magic + rate + channels + duration + n_peaks + n_bass + cols + per_sec
                + pitches + raw_bins + sal_bins + rest;
            &&& file.len() == 50 + rest.len()
            &&& file.take(8) == magic
            &&& file.subrange(8, 12) == rate
            &&& file.subrange(12, 16) == channels
            &&& file.subrange(16, 24) == duration
            &&& file.subrange(24, 28) == n_peaks
            &&& file.subrange(28, 32) == n_bass
            &&& file.subrange(32, 36) == cols
            &&& file.subrange(36, 40) == per_sec
            &&& file[40] == pitches[0]
            &&& file[41] == pitches[1]
            &&& file.subrange(42, 46) == raw_bins
            &&& file.subrange(46, 50) == sal_bins
            &&& file.skip(50) == rest
        }),
{
    let file = magic + rate + channels + duration + n_peaks + n_bass + cols + per_sec + pitches
        + raw_bins + sal_bins + rest;
    assert(file.take(8) =~= magic);
    assert(file.subrange(8, 12) =~= rate);
    assert(file.subrange(12, 16) =~= channels);
    assert(file.subrange(16, 24) =~= duration);
    assert(file.subrange(24, 28) =~= n_peaks);
    assert(file.subrange(28, 32) =~= n_bass);
    assert(file.subrange(32, 36) =~= cols);
    assert(file.subrange(36, 40) =~= per_sec);
    assert(file.subrange(42, 46) =~= raw_bins);
    assert(file.subrange(46, 50) =~= sal_bins);
    assert(file.skip(50) =~= rest);
}

/// Where the parts of a payload stand.
proof fn lemma_payload_layout(
    header: Seq<u8>,
    peaks: Seq<u8>,
    bass: Seq<u8>,
    raw: Seq<u8>,
    salience: Seq<u8>,
    tail: Seq<u8>,
)
    ensures
        ({
            let file = header + peaks + bass + raw + salience + tail;
            let a = header.len() as int;
            let b = a + peaks.len();
            let c = b + bass.len();
            let d = c + raw.len();
            let e = d + salience.len();
            &&& e <= file.len()
            &&& file.subrange(a, b) == peaks
            &&& file.subrange(b, c) == bass
            &&& file.subrange(c, d) == raw
            &&& file.subrange(d, e) == salience
            &&& file == header + (peaks + bass + raw + salience + tail)
        }),
{
    let file = header + peaks + bass + raw + salience + tail;
    let a = header.len() as int;
    let b = a + peaks.len();
    let c = b + bass.len();
    let d = c + raw.len();
    let e = d + salience.len();
    assert(file.subrange(a, b) =~= peaks);
    assert(file.subrange(b, c) =~= bass);
    assert(file.subrange(c, d) =~= raw);
    assert(file.subrange(d, e) =~= salience);
    assert(file =~= header + (peaks + bass + raw + salience + tail));
}

/// A table of equally long rows, wherever its bytes stand, reads back.
proof fn lemma_rows_read_back(file: Seq<u8>, at: int, rows: Seq<Seq<u32>>, n: nat)
    requires
        0 <= at,
        at + rows_bytes(rows).len() <= file.len(),
        file.subrange(at, at + rows_bytes(rows).len()) == rows_bytes(rows),
        forall|c: int| 0 <= c < rows.len() ==> (#[trigger] rows[c]).len() == n,
    ensures
        rows_bytes(rows).len() == 4 * n * rows.len(),
        rows_at(file, at, rows.len(), n) == rows,
    decreases rows.len(),
{
    if rows.len() == 0 {
        assert(4 * n * 0 == 0) by (nonlinear_arith);
        assert(rows_at(file, at, 0, n) =~= rows);
    } else {
        let init = rows.drop_last();
        let last = rows.last();
        let all = file.subrange(at, at + rows_bytes(rows).len());
        let k = rows_bytes(init).len() as int;
        assert(file.subrange(at, at + k) =~= all.subrange(0, k));
        assert(all.subrange(0, k) =~= rows_bytes(init));
        assert forall|c: int| 0 <= c < init.len() implies (#[trigger] init[c]).len() == n by {
            assert(init[c] == rows[c]);
        }
        lemma_rows_read_back(file, at, init, n);
        assert(last == rows[rows.len() - 1]);
        assert(4 * n * (rows.len() - 1) + 4 * n == 4 * n * rows.len()) by (nonlinear_arith);
        assert(file.subrange(at + k, at + k + 4 * n) =~= all.subrange(k, k + 4 * n));
        assert(all.subrange(k, k + 4 * n) =~= words::words_bytes(last));
        words::lemma_words_read_back(file, at + k, last);
        assert forall|c: int| 0 <= c < rows.len() implies rows_at(file, at, rows.len(), n)[c]
            == rows[c] by {
            if c < init.len() {
                assert(rows_at(file, at, init.len(), n)[c] == init[c]);
            }
        }
        assert(rows_at(file, at, rows.len(), n) =~= rows);
    }
}

/// What an analysis of a file always looks like: a sample rate, at least one channel, one row
/// of peaks per channel, rows of equal length, whole spectrogram columns, and every count
/// within 32 bits.
pub open spec fn cacheable(meta: MetaView) -> bool {
    let spec = meta.spectrogram;
    &&& 0 < meta.channels < 4294967296
    &&& 0 < meta.sample_rate < 4294967296
    &&& meta.peaks.len() == meta.channels
    &&& meta.bass_peaks.len() == meta.channels
    &&& first_len(meta.peaks) < 4294967296
    &&& first_len(meta.bass_peaks) < 4294967296
    &&& forall|c: int|
        0 <= c < meta.channels ==> (#[trigger] meta.peaks[c]).len() == first_len(meta.peaks)
    &&& forall|c: int|
        0 <= c < meta.channels ==> (#[trigger] meta.bass_peaks[c]).len() == first_len(
            meta.bass_peaks,
        )
    &&& 0 <= spec.cols < 4294967296
    &&& 0 <= spec.raw.bins < 4294967296
    &&& 0 <= spec.salience.bins < 4294967296
    &&& spec.raw.bytes.len() == spec.cols * spec.raw.bins
    &&& spec.salience.bytes.len() == spec.cols * spec.salience.bins
}

/// Reading the cache file of an analysis gives the analysis back, whatever follows it in the
/// file.
pub proof fn law_peaks_cache_reads_back(meta: MetaView, tail: Seq<u8>)
    requires
        cacheable(meta),
    ensures
        peaks_file_ok(peaks_file(meta) + tail),
        peaks_contents(peaks_file(meta) + tail) == meta,
{
    let spec = meta.spectrogram;
    let file = peaks_file(meta) + tail;
    let np = first_len(meta.peaks);
    let nb = first_len(meta.bass_peaks);
    let rate = meta.sample_rate as u32;
    let channels = meta.channels as u32;
    lemma_payload_layout(
        peaks_header(meta),
        rows_bytes(meta.peaks),
        rows_bytes(meta.bass_peaks),
        spec.raw.bytes,
        spec.salience.bytes,
        tail,
    );
    words::lemma_word_len(rate);
    words::lemma_word_len(channels);
    words::lemma_long_len(meta.duration_secs);
    words::lemma_word_len(np as u32);
    words::lemma_word_len(nb as u32);
    words::lemma_word_len(spec.cols as u32);
    words::lemma_word_len(spec.cols_per_sec);
    words::lemma_word_len(spec.raw.bins as u32);
    words::lemma_word_len(spec.salience.bins as u32);
    lemma_header_layout(
        PEAKS_MAGIC@,
        words::word_bytes(rate),
        words::word_bytes(channels),
        words::long_bytes(meta.duration_secs),
        words::word_bytes(np as u32),
        words::word_bytes(nb as u32),
        words::word_bytes(spec.cols as u32),
        words::word_bytes(spec.cols_per_sec),
        seq![spec.midi_lo, spec.midi_hi],
        words::word_bytes(spec.raw.bins as u32),
        words::word_bytes(spec.salience.bins as u32),
        rows_bytes(meta.peaks) + rows_bytes(meta.bass_peaks) + spec.raw.bytes + spec.salience.bytes
            + tail,
    );
    words::lemma_word_reads_back(file, 8, rate);
    words::lemma_word_reads_back(file, 12, channels);
    words::lemma_long_reads_back(file, 16, meta.duration_secs);
    words::lemma_word_reads_back(file, 24, np as u32);
    words::lemma_word_reads_back(file, 28, nb as u32);
    words::lemma_word_reads_back(file, 32, spec.cols as u32);
    words::lemma_word_reads_back(file, 36, spec.cols_per_sec);
    words::lemma_word_reads_back(file, 42, spec.raw.bins as u32);
    words::lemma_word_reads_back(file, 46, spec.salience.bins as u32);
    lemma_rows_read_back(file, 50, meta.peaks, np as nat);
    lemma_rows_read_back(
        file,
        50 + rows_bytes(meta.peaks).len() as int,
        meta.bass_peaks,
        nb as nat,
    );
    assert(peaks_end(file) == 50 + rows_bytes(meta.peaks).len());
    assert(bass_end(file) == peaks_end(file) + rows_bytes(meta.bass_peaks).len());
    assert(raw_end(file) == bass_end(file) + spec.raw.bytes.len());
    assert(salience_end(file) == raw_end(file) + spec.salience.bytes.len());
    assert(peaks_contents(file) =~~= meta);
}

/// The layout of a cache file: everything stands where it is looked for, and the file ends with
/// the last layer.
pub proof fn law_peaks_file_layout(meta: MetaView, c: int, i: int)
    requires
        cacheable(meta),
        0 <= c < meta.channels,
        0 <= i < meta.peaks[c].len(),
        i < meta.bass_peaks[c].len(),
    ensures
        ({
            let file = peaks_file(meta);
            let spec = meta.spectrogram;
            let np = meta.peaks[0].len() as int;
            let nb = meta.bass_peaks[0].len() as int;
            let bass_at = 50 + 4 * np * meta.channels;
            let raw_at = bass_at + 4 * nb * meta.channels;
            let sal_at = raw_at + spec.cols * spec.raw.bins;
            &&& file.take(8) == seq![0x50u8, 0x45, 0x41, 0x4b, 0x53, 0x30, 0x30, 0x32]
            &&& words::word_at(file, 8) == meta.sample_rate
            &&& words::word_at(file, 12) == meta.channels
            &&& words::long_at(file, 16) == meta.duration_secs
            &&& words::word_at(file, 24) == np
            &&& words::word_at(file, 28) == nb
            &&& words::word_at(file, 32) == spec.cols
            &&& words::word_at(file, 36) == spec.cols_per_sec
            &&& file[40] == spec.midi_lo && file[41] == spec.midi_hi
            &&& words::word_at(file, 42) == spec.raw.bins
            &&& words::word_at(file, 46) == spec.salience.bins
            &&& words::word_at(file, 50 + 4 * np * c + 4 * i) == meta.peaks[c][i]
            &&& words::word_at(file, bass_at + 4 * nb * c + 4 * i) == meta.bass_peaks[c][i]
            &&& file.subrange(raw_at, sal_at) == spec.raw.bytes
            &&& file.subrange(sal_at, sal_at + spec.cols * spec.salience.bins)
                == spec.salience.bytes
        }),
{
    let file = peaks_file(meta);
    law_peaks_cache_reads_back(meta, Seq::empty());
    assert(file + Seq::<u8>::empty() =~= file);
    let held = peaks_contents(file);
    assert(held.peaks[c][i] == meta.peaks[c][i]);
    assert(held.bass_peaks[c][i] == meta.bass_peaks[c][i]);
    assert(words::word_at(file, 24) == meta.peaks[0].len()) by {
        assert(held.peaks[0].len() == meta.peaks[0].len());
    }
    assert(words::word_at(file, 28) == meta.bass_peaks[0].len()) by {
        assert(held.bass_peaks[0].len() == meta.bass_peaks[0].len());
    }
    assert(held.spectrogram.raw.bytes == meta.spectrogram.raw.bytes);
    assert(held.spectrogram.salience.bytes == meta.spectrogram.salience.bytes);
    assert(PEAKS_MAGIC@ =~= seq![0x50u8, 0x45, 0x41, 0x4b, 0x53, 0x30, 0x30, 0x32]);
}

/// A file is read exactly if it has the magic, a sample rate, a channel, and the whole payload
/// that its header speaks of.
pub proof fn law_peaks_files_are_read_if_whole(file: Seq<u8>)
    ensures
        peaks_file_ok(file) <==> {
            let channels = words::word_at(file, 12) as int;
            let cols = words::word_at(file, 32) as int;
            &&& file.len() >= 50
            &&& file.take(8) == seq![0x50u8, 0x45, 0x41, 0x4b, 0x53, 0x30, 0x30, 0x32]
            &&& words::word_at(file, 8) > 0
            &&& channels > 0
            &&& 50 + 4 * words::word_at(file, 24) * channels + 4 * words::word_at(file, 28)
                * channels + cols * words::word_at(file, 42) + cols * words::word_at(file, 46)
                <= file.len()
        },
{
    assert(PEAKS_MAGIC@ =~= seq![0x50u8, 0x45, 0x41, 0x4b, 0x53, 0x30, 0x30, 0x32]);
}

} // verus!
