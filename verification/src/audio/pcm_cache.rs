//! The PCM cache: decoded samples kept next to their source file.
//!
//! Layout: 8 bytes magic, sample rate (32 bits), channels (32 bits), number of samples
//! (64 bits), then the samples (32 bits each, interleaved). All numbers are little-endian.

use vstd::prelude::*;
use crate::audio::decode::DecodedAudio;
#[allow(unused_imports)]
use crate::audio::decode::AudioView;
use crate::audio::words;
use crate::audio::words::{push_bytes, push_long, push_word, push_words, read_long, read_word, read_words};

verus! {

/// "F32PCM02".
pub const CACHE_MAGIC: [u8; 8] = [0x46, 0x33, 0x32, 0x50, 0x43, 0x4d, 0x30, 0x32];

/// Samples are read in blocks of at most this many bytes.
pub const READ_BLOCK: usize = 8388608;

/// The bytes before the samples.
pub open spec fn pcm_header(audio: AudioView) -> Seq<u8> {
    CACHE_MAGIC@ + words::word_bytes(audio.sample_rate as u32) + words::word_bytes(
        (audio.channels % 4294967296) as u32,
    ) + words::long_bytes(audio.samples.len() as u64)
}

/// The whole cache file.
pub open spec fn pcm_file(audio: AudioView) -> Seq<u8> {
    pcm_header(audio) + words::words_bytes(audio.samples)
}

/// What a file's first bytes say: the magic and a header with no zero in it, for a number of
/// samples that the machine can hold.
pub open spec fn pcm_header_ok(file: Seq<u8>) -> bool {
    &&& file.len() >= 24
    &&& file.take(8) == CACHE_MAGIC@
    &&& words::word_at(file, 8) != 0
    &&& words::word_at(file, 12) != 0
    &&& words::long_at(file, 16) != 0
    &&& 4 * words::long_at(file, 16) <= usize::MAX
}

/// The audio that a file holds: `None` unless the header is right and all samples are there.
/// Bytes after the last sample do not matter.
pub open spec fn pcm_parse(file: Seq<u8>) -> Option<AudioView> {
    if pcm_header_ok(file) && 24 + 4 * words::long_at(file, 16) <= file.len() {
        Some(
            AudioView {
                samples: words::words_at(file, 24, words::long_at(file, 16) as nat),
                channels: words::word_at(file, 12) as int,
                sample_rate: words::word_at(file, 8) as int,
            },
        )
    } else {
        None
    }
}

/// The contents of the cache file for some audio.
pub fn encode_pcm_cache(audio: &DecodedAudio) -> (file: Vec<u8>)
    ensures
        file@ == pcm_file(audio@),
{
    let mut out: Vec<u8> = Vec::new();
    push_bytes(&mut out, &CACHE_MAGIC);
    push_word(&mut out, audio.sample_rate);
    push_word(&mut out, (audio.channels as u64 % 4294967296) as u32);
    push_long(&mut out, audio.samples.len() as u64);
    push_words(&mut out, audio.samples.as_slice());
    assert(out@ =~= pcm_file(audio@));
    out
}

/// How far a reader has come.
enum Stage {
    Magic,
    Header,
    Samples { sample_rate: u32, channels: u32, n_samples: usize },
    Rejected,
}

/// Reads a cache file block by block: ask how many bytes are wanted, hand them over, repeat
/// until none are wanted or the file ends.
pub struct PcmCacheReader {
    stage: Stage,
    samples: Vec<u32>,
    consumed: Ghost<Seq<u8>>,
}

impl View for PcmCacheReader {
    type V = Seq<u8>;

    /// The bytes handed over so far.
    closed spec fn view(&self) -> Seq<u8> {
        self.consumed@
    }
}

impl PcmCacheReader {
    /// The reader's fields follow from the bytes handed over.
    pub closed spec fn inv(&self) -> bool {
        match self.stage {
            Stage::Magic => self@.len() == 0 && self.samples@.len() == 0,
            Stage::Header => self@ == CACHE_MAGIC@ && self.samples@.len() == 0,
            Stage::Samples { sample_rate, channels, n_samples } => {
                &&& pcm_header_ok(self@)
                &&& self@.len() == 24 + 4 * self.samples@.len()
                &&& sample_rate == words::word_at(self@, 8)
                &&& channels == words::word_at(self@, 12)
                &&& n_samples == words::long_at(self@, 16)
                &&& self.samples@.len() <= n_samples
                &&& self.samples@ == words::words_at(self@, 24, self.samples@.len())
            },
            Stage::Rejected => !pcm_header_ok(self@) && self@.len() >= 8 && (self@.len() >= 24
                || self@.take(8) != CACHE_MAGIC@),
        }
    }

    /// Number of bytes wanted next: the magic, the rest of the header, then blocks of samples.
    pub open spec fn wanted_after(consumed: Seq<u8>) -> int {
        if consumed.len() < 8 {
            8
        } else if consumed.take(8) != CACHE_MAGIC@ {
            0
        } else if consumed.len() < 24 {
            16
        } else if !pcm_header_ok(consumed) {
            0
        } else {
            let left = 24 + 4 * words::long_at(consumed, 16) - consumed.len();
            if left < READ_BLOCK {
                left
            } else {
                READ_BLOCK as int
            }
        }
    }

    pub fn new() -> (reader: PcmCacheReader)
        ensures
            reader.inv(),
            reader@ == Seq::<u8>::empty(),
    {
        PcmCacheReader { stage: Stage::Magic, samples: Vec::new(), consumed: Ghost(Seq::empty()) }
    }

    /// Number of bytes wanted next; 0 when the file has been read or turned down.
    pub fn wanted(&self) -> (n: usize)
        requires
            self.inv(),
        ensures
            n == Self::wanted_after(self@),
    {
        match self.stage {
            Stage::Magic => 8,
            Stage::Header => {
                assert(self@.take(8) =~= CACHE_MAGIC@);
                16
            },
            Stage::Samples { n_samples, .. } => {
                let left: usize = 4 * (n_samples - self.samples.len());
                if left < READ_BLOCK {
                    left
                } else {
                    READ_BLOCK
                }
            },
            Stage::Rejected => 0,
        }
    }

    /// Hands over the bytes that were wanted.
    pub fn accept(&mut self, block: &[u8])
        requires
            old(self).inv(),
            block@.len() == Self::wanted_after(old(self)@),
            block@.len() > 0,
        ensures
            final(self).inv(),
            final(self)@ == old(self)@ + block@,
    {
        let ghost before = self@;
        let ghost after = self@ + block@;
        match self.stage {
            Stage::Magic => {
                assert(after =~= block@);
                assert(after.take(8) =~= block@);
                let mut ok: bool = true;
                let mut i: usize = 0;
                while i < 8
                    invariant
                        i <= 8,
                        block@.len() == 8,
                        ok == (forall|k: int| 0 <= k < i ==> block@[k] == CACHE_MAGIC@[k]),
                    decreases 8 - i,
                {
                    if block[i] != CACHE_MAGIC[i] {
                        ok = false;
                    }
                    i += 1;
                }
                if ok {
                    assert(block@ =~= CACHE_MAGIC@);
                    self.stage = Stage::Header;
                } else {
                    self.stage = Stage::Rejected;
                }
            },
            Stage::Header => {
                assert(before.take(8) =~= CACHE_MAGIC@);
                assert(block@.len() == 16);
                let sample_rate: u32 = read_word(block, 0);
                let channels: u32 = read_word(block, 4);
                let n_samples: u64 = read_long(block, 8);
                assert(after.take(8) =~= CACHE_MAGIC@);
                proof {
                    words::lemma_word_same(after, 8, block@, 0);
                    words::lemma_word_same(after, 12, block@, 4);
                    words::lemma_long_same(after, 16, block@, 8);
                }
                if sample_rate == 0 || channels == 0 || n_samples == 0 || n_samples > (usize::MAX
                    / 4) as u64 {
                    self.stage = Stage::Rejected;
                } else {
                    self.stage = Stage::Samples {
                        sample_rate,
                        channels,
                        n_samples: n_samples as usize,
                    };
                    assert(self.samples@ =~= words::words_at(after, 24, 0));
                }
            },
            Stage::Samples { sample_rate, channels, n_samples } => {
                let ghost had = self.samples@.len();
                let mut more: Vec<u32> = read_words(block, 0, block.len() / 4);
                assert(block@.len() % 4 == 0);
                self.samples.append(&mut more);
                proof {
                    assert(after.take(8) =~= before.take(8));
                    words::lemma_word_same(after, 8, before, 8);
                    words::lemma_word_same(after, 12, before, 12);
                    words::lemma_long_same(after, 16, before, 16);
                    let got = (block@.len() / 4) as nat;
                    words::lemma_words_same(after, 24, before, 24, had);
                    words::lemma_words_same(after, 24 + 4 * had as int, block@, 0, got);
                    words::lemma_words_split(after, 24, had, got);
                    assert(self.samples@ =~= words::words_at(after, 24, (had + got) as nat));
                }
            },
            Stage::Rejected => {},
        }
        self.consumed = Ghost(after);
    }

    /// Bytes of samples read so far, and how many there are in all.
    pub fn progress(&self) -> (p: (usize, usize))
        requires
            self.inv(),
        ensures
            pcm_header_ok(self@) ==> p.0 == self@.len() - 24 && p.1 == 4 * words::long_at(self@, 16),
            !pcm_header_ok(self@) ==> p == (0usize, 0usize),
    {
        match self.stage {
            Stage::Samples { n_samples, .. } => (4 * self.samples.len(), 4 * n_samples),
            _ => (0, 0),
        }
    }

    /// The audio that the bytes handed over hold, if they hold all of it.
    pub fn finish(self) -> (audio: Option<DecodedAudio>)
        requires
            self.inv(),
        ensures
            match audio {
                Some(a) => pcm_parse(self@) == Some(a@),
                None => pcm_parse(self@) is None,
            },
    {
        match self.stage {
            Stage::Samples { sample_rate, channels, n_samples } => {
                if self.samples.len() == n_samples {
                    Some(DecodedAudio { samples: self.samples, channels: channels as usize, sample_rate })
                } else {
                    None
                }
            },
            _ => None,
        }
    }
}

/// Where the parts of a file stand.
proof fn lemma_layout(
    magic: Seq<u8>,
    rate: Seq<u8>,
    channels: Seq<u8>,
    count: Seq<u8>,
    samples: Seq<u8>,
    tail: Seq<u8>,
)
    requires
        magic.len() == 8,
        rate.len() == 4,
        channels.len() == 4,
        count.len() == 8,
    ensures
        ({
            let file = magic + rate + channels + count + samples + tail;
            &&& file.take(8) == magic
            &&& file.subrange(8, 12) == rate
            &&& file.subrange(12, 16) == channels
            &&& file.subrange(16, 24) == count
            &&& file.subrange(24, 24 + samples.len() as int) == samples
        }),
{
    let file = magic + rate + channels + count + samples + tail;
    assert(file.take(8) =~= magic);
    assert(file.subrange(8, 12) =~= rate);
    assert(file.subrange(12, 16) =~= channels);
    assert(file.subrange(16, 24) =~= count);
    assert(file.subrange(24, 24 + samples.len() as int) =~= samples);
}

/// Reading the cache file of some audio gives the audio back, whatever follows it in the file.
pub proof fn law_pcm_cache_reads_back(audio: AudioView, tail: Seq<u8>)
    requires
        0 < audio.channels < 4294967296,
        0 < audio.sample_rate < 4294967296,
        0 < audio.samples.len(),
        4 * audio.samples.len() <= usize::MAX,
    ensures
        pcm_parse(pcm_file(audio) + tail) == Some(audio),
{
    let file = pcm_file(audio) + tail;
    let n = audio.samples.len();
    words::lemma_word_len(audio.sample_rate as u32);
    words::lemma_word_len(audio.channels as u32);
    words::lemma_long_len(n as u64);
    lemma_layout(
        CACHE_MAGIC@,
        words::word_bytes(audio.sample_rate as u32),
        words::word_bytes(audio.channels as u32),
        words::long_bytes(n as u64),
        words::words_bytes(audio.samples),
        tail,
    );
    assert(pcm_file(audio) == CACHE_MAGIC@ + words::word_bytes(audio.sample_rate as u32) + words::word_bytes(
        audio.channels as u32,
    ) + words::long_bytes(n as u64) + words::words_bytes(audio.samples));
    words::lemma_word_reads_back(file, 8, audio.sample_rate as u32);
    words::lemma_word_reads_back(file, 12, audio.channels as u32);
    words::lemma_long_reads_back(file, 16, n as u64);
    words::lemma_words_read_back(file, 24, audio.samples);
}

/// A file is read no further than it has to be: once the samples are all there, or the header
/// is wrong, more bytes change nothing.
pub proof fn law_pcm_parse_ignores_tail(file: Seq<u8>, tail: Seq<u8>)
    requires
        PcmCacheReader::wanted_after(file) == 0,
    ensures
        pcm_parse(file + tail) == pcm_parse(file),
{
    let longer = file + tail;
    assert(longer.take(8) =~= file.take(8));
    if file.len() >= 24 {
        words::lemma_word_same(longer, 8, file, 8);
        words::lemma_word_same(longer, 12, file, 12);
        words::lemma_long_same(longer, 16, file, 16);
        if pcm_header_ok(file) {
            let n = words::long_at(file, 16) as nat;
            words::lemma_words_same(longer, 24, file, 24, n);
        }
    }
}

/// The layout of a cache file: magic, sample rate, channels and number of samples at fixed places,
/// then the samples, and nothing else.
pub proof fn law_pcm_file_layout(audio: AudioView, i: int)
    requires
        0 <= audio.channels < 4294967296,
        0 <= audio.sample_rate < 4294967296,
        audio.samples.len() <= u64::MAX,
        0 <= i < audio.samples.len(),
    ensures
        ({
            let file = pcm_file(audio);
            &&& file.len() == 24 + 4 * audio.samples.len()
            &&& file.take(8) == seq![0x46u8, 0x33, 0x32, 0x50, 0x43, 0x4d, 0x30, 0x32]
            &&& words::word_at(file, 8) == audio.sample_rate
            &&& words::word_at(file, 12) == audio.channels
            &&& words::long_at(file, 16) == audio.samples.len()
            &&& words::word_at(file, 24 + 4 * i) == audio.samples[i]
        }),
{
    let file = pcm_file(audio);
    let n = audio.samples.len();
    words::lemma_word_len(audio.sample_rate as u32);
    words::lemma_word_len(audio.channels as u32);
    words::lemma_long_len(n as u64);
    lemma_layout(
        CACHE_MAGIC@,
        words::word_bytes(audio.sample_rate as u32),
        words::word_bytes(audio.channels as u32),
        words::long_bytes(n as u64),
        words::words_bytes(audio.samples),
        Seq::empty(),
    );
    let whole = CACHE_MAGIC@ + words::word_bytes(audio.sample_rate as u32) + words::word_bytes(
        audio.channels as u32,
    ) + words::long_bytes(n as u64) + words::words_bytes(audio.samples) + Seq::<u8>::empty();
    assert(whole =~= file);
    words::lemma_word_reads_back(file, 8, audio.sample_rate as u32);
    words::lemma_word_reads_back(file, 12, audio.channels as u32);
    words::lemma_long_reads_back(file, 16, n as u64);
    words::lemma_words_read_back(file, 24, audio.samples);
    assert(words::words_at(file, 24, n)[i] == audio.samples[i]);
    assert(CACHE_MAGIC@ =~= seq![0x46u8, 0x33, 0x32, 0x50, 0x43, 0x4d, 0x30, 0x32]);
}

/// A file is read exactly if it has the magic, no zero in its header, and all the samples it
/// speaks of, as many as the machine can hold; then it gives what stands at those places.
pub proof fn law_pcm_files_are_read_from_their_layout(file: Seq<u8>)
    ensures
        pcm_parse(file) is Some <==> {
            &&& file.len() >= 24
            &&& file.take(8) == seq![0x46u8, 0x33, 0x32, 0x50, 0x43, 0x4d, 0x30, 0x32]
            &&& words::word_at(file, 8) > 0
            &&& words::word_at(file, 12) > 0
            &&& words::long_at(file, 16) > 0
            &&& 4 * words::long_at(file, 16) <= usize::MAX
            &&& 24 + 4 * words::long_at(file, 16) <= file.len()
        },
        pcm_parse(file) matches Some(audio) ==> {
            &&& audio.sample_rate == words::word_at(file, 8)
            &&& audio.channels == words::word_at(file, 12)
            &&& audio.samples.len() == words::long_at(file, 16)
            &&& forall|i: int|
                0 <= i < audio.samples.len() ==> #[trigger] audio.samples[i] == words::word_at(
                    file,
                    24 + 4 * i,
                )
        },
{
    assert(CACHE_MAGIC@ =~= seq![0x46u8, 0x33, 0x32, 0x50, 0x43, 0x4d, 0x30, 0x32]);
}

/// A reader asks for no byte that it does not need, and goes on asking until it has all: what it
/// wants next is never more than is missing, and nothing is wanted once all samples are there.
pub proof fn law_reader_wants_what_is_missing(consumed: Seq<u8>)
    requires
        pcm_header_ok(consumed),
        consumed.len() <= 24 + 4 * words::long_at(consumed, 16),
    ensures
        ({
            let missing = 24 + 4 * words::long_at(consumed, 16) - consumed.len();
            let wanted = PcmCacheReader::wanted_after(consumed);
            &&& 0 <= wanted <= missing
            &&& wanted == 0 <==> missing == 0
            &&& wanted == missing || wanted == 8388608
        }),
{
}

} // verus!
