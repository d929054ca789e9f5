//! Little-endian numbers in byte strings.

use vstd::prelude::*;

verus! {

/// The four bytes of a 32-bit number, least significant first.
#[verifier::opaque]
pub open spec fn word_bytes(x: u32) -> Seq<u8> {
    seq![
        (x % 256) as u8,
        (x / 256 % 256) as u8,
        (x / 65536 % 256) as u8,
        (x / 16777216) as u8,
    ]
}

/// The 32-bit number whose bytes start at `at`.
#[verifier::opaque]
pub open spec fn word_at(bytes: Seq<u8>, at: int) -> u32 {
    (bytes[at] + bytes[at + 1] * 256 + bytes[at + 2] * 65536 + bytes[at + 3] * 16777216) as u32
}

/// The eight bytes of a 64-bit number, least significant first.
#[verifier::opaque]
pub open spec fn long_bytes(x: u64) -> Seq<u8> {
    word_bytes((x % 4294967296) as u32) + word_bytes((x / 4294967296) as u32)
}

/// The 64-bit number whose bytes start at `at`.
#[verifier::opaque]
pub open spec fn long_at(bytes: Seq<u8>, at: int) -> u64 {
    (word_at(bytes, at) + word_at(bytes, at + 4) * 4294967296) as u64
}

/// The bytes of a row of 32-bit numbers.
pub open spec fn words_bytes(words: Seq<u32>) -> Seq<u8> {
    Seq::new(4 * words.len(), |i: int| word_bytes(words[i / 4])[i % 4])
}

/// The `n` 32-bit numbers whose bytes start at `at`.
pub open spec fn words_at(bytes: Seq<u8>, at: int, n: nat) -> Seq<u32> {
    Seq::new(n, |i: int| word_at(bytes, at + 4 * i))
}

pub fn push_bytes(out: &mut Vec<u8>, bytes: &[u8])
    ensures
        final(out)@ == old(out)@ + bytes@,
{
    out.extend_from_slice(bytes);
    assert(out@ =~= old(out)@ + bytes@);
}

pub fn push_word(out: &mut Vec<u8>, x: u32)
    ensures
        final(out)@ == old(out)@ + word_bytes(x),
{
    out.push((x % 256) as u8);
    out.push((x / 256 % 256) as u8);
    out.push((x / 65536 % 256) as u8);
    out.push((x / 16777216) as u8);
    reveal(word_bytes);
    assert(out@ =~= old(out)@ + word_bytes(x));
}

pub fn push_long(out: &mut Vec<u8>, x: u64)
    ensures
        final(out)@ == old(out)@ + long_bytes(x),
{
    push_word(out, (x % 4294967296) as u32);
    push_word(out, (x / 4294967296) as u32);
    reveal(long_bytes);
    assert(out@ =~= old(out)@ + long_bytes(x));
}

pub fn push_words(out: &mut Vec<u8>, words: &[u32])
    ensures
        final(out)@ == old(out)@ + words_bytes(words@),
{
    let mut i: usize = 0;
    assert(out@ =~= old(out)@ + words_bytes(words@.take(0)));
    while i < words.len()
        invariant
            i <= words@.len(),
            out@ == old(out)@ + words_bytes(words@.take(i as int)),
        decreases words@.len() - i,
    {
        push_word(out, words[i]);
        proof {
            lemma_words_bytes_push(words@.take(i as int), words@[i as int]);
            assert(words@.take(i + 1) =~= words@.take(i as int).push(words@[i as int]));
            assert(out@ =~= old(out)@ + words_bytes(words@.take(i + 1)));
        }
        i += 1;
    }
    assert(words@.take(i as int) =~= words@);
}

pub fn read_word(bytes: &[u8], at: usize) -> (x: u32)
    requires
        at + 4 <= bytes@.len(),
    ensures
        x == word_at(bytes@, at as int),
{
    reveal(word_at);
    bytes[at] as u32 + bytes[at + 1] as u32 * 256 + bytes[at + 2] as u32 * 65536 + bytes[at
        + 3] as u32 * 16777216
}

pub fn read_long(bytes: &[u8], at: usize) -> (x: u64)
    requires
        at + 8 <= bytes@.len(),
    ensures
        x == long_at(bytes@, at as int),
{
    assert(bytes.len() <= usize::MAX);
    reveal(long_at);
    read_word(bytes, at) as u64 + read_word(bytes, at + 4) as u64 * 4294967296
}

pub fn read_words(bytes: &[u8], at: usize, n: usize) -> (words: Vec<u32>)
    requires
        at + 4 * n <= bytes@.len(),
    ensures
        words@ == words_at(bytes@, at as int, n as nat),
{
    let mut words: Vec<u32> = Vec::with_capacity(n);
    let mut i: usize = 0;
    assert(bytes.len() <= usize::MAX);
    while i < n
        invariant
            i <= n,
            at + 4 * n <= usize::MAX,
            at + 4 * n <= bytes@.len(),
            words@ == words_at(bytes@, at as int, i as nat),
        decreases n - i,
    {
        words.push(read_word(bytes, at + 4 * i));
        i += 1;
        assert(words@ =~= words_at(bytes@, at as int, i as nat));
    }
    words
}

pub proof fn lemma_word_len(x: u32)
    ensures
        word_bytes(x).len() == 4,
{
    reveal(word_bytes);
}

pub proof fn lemma_long_len(x: u64)
    ensures
        long_bytes(x).len() == 8,
{
    reveal(long_bytes);
    reveal(word_bytes);
}

/// Equal bytes are equal numbers, wherever they stand.
pub proof fn lemma_word_same(a: Seq<u8>, i: int, b: Seq<u8>, j: int)
    requires
        0 <= i <= a.len() - 4,
        0 <= j <= b.len() - 4,
        a.subrange(i, i + 4) =~= b.subrange(j, j + 4),
    ensures
        word_at(a, i) == word_at(b, j),
{
    reveal(word_at);
    let (x, y) = (a.subrange(i, i + 4), b.subrange(j, j + 4));
    assert(x[0] == y[0] && x[1] == y[1] && x[2] == y[2] && x[3] == y[3]);
}

pub proof fn lemma_long_same(a: Seq<u8>, i: int, b: Seq<u8>, j: int)
    requires
        0 <= i <= a.len() - 8,
        0 <= j <= b.len() - 8,
        a.subrange(i, i + 8) =~= b.subrange(j, j + 8),
    ensures
        long_at(a, i) == long_at(b, j),
{
    reveal(long_at);
    let (x, y) = (a.subrange(i, i + 8), b.subrange(j, j + 8));
    assert(a.subrange(i, i + 4) =~= x.subrange(0, 4));
    assert(b.subrange(j, j + 4) =~= y.subrange(0, 4));
    assert(a.subrange(i + 4, i + 8) =~= x.subrange(4, 8));
    assert(b.subrange(j + 4, j + 8) =~= y.subrange(4, 8));
    lemma_word_same(a, i, b, j);
    lemma_word_same(a, i + 4, b, j + 4);
}

/// Equal bytes are equal rows of numbers, wherever they stand.
pub proof fn lemma_words_same(a: Seq<u8>, i: int, b: Seq<u8>, j: int, n: nat)
    requires
        0 <= i <= a.len() - 4 * n,
        0 <= j <= b.len() - 4 * n,
        a.subrange(i, i + 4 * n) =~= b.subrange(j, j + 4 * n),
    ensures
        words_at(a, i, n) == words_at(b, j, n),
{
    let (x, y) = (a.subrange(i, i + 4 * n), b.subrange(j, j + 4 * n));
    assert forall|m: int| 0 <= m < n implies words_at(a, i, n)[m] == words_at(b, j, n)[m] by {
        assert(a.subrange(i + 4 * m, i + 4 * m + 4) =~= x.subrange(4 * m, 4 * m + 4));
        assert(b.subrange(j + 4 * m, j + 4 * m + 4) =~= y.subrange(4 * m, 4 * m + 4));
        lemma_word_same(a, i + 4 * m, b, j + 4 * m);
    }
    assert(words_at(a, i, n) =~= words_at(b, j, n));
}

/// A row of numbers is its first part and the rest.
pub proof fn lemma_words_split(bytes: Seq<u8>, at: int, m: nat, n: nat)
    ensures
        words_at(bytes, at, m + n) == words_at(bytes, at, m) + words_at(bytes, at + 4 * m, n),
{
    assert(words_at(bytes, at, m + n) =~= words_at(bytes, at, m) + words_at(bytes, at + 4 * m, n));
}

pub proof fn lemma_words_bytes_push(words: Seq<u32>, x: u32)
    ensures
        words_bytes(words.push(x)) == words_bytes(words) + word_bytes(x),
{
    lemma_word_len(x);
    let longer = words_bytes(words.push(x));
    let parts = words_bytes(words) + word_bytes(x);
    assert forall|i: int| 0 <= i < longer.len() implies longer[i] == parts[i] by {
        if i >= 4 * words.len() {
            assert(i / 4 == words.len());
            assert(i % 4 == i - 4 * words.len());
        } else {
            assert(i / 4 < words.len());
        }
    }
    assert(longer =~= parts);
}

/// A number's bytes, wherever they stand, read back as the number.
pub proof fn lemma_word_reads_back(bytes: Seq<u8>, at: int, x: u32)
    requires
        0 <= at,
        at + 4 <= bytes.len(),
        bytes.subrange(at, at + 4) == word_bytes(x),
    ensures
        word_at(bytes, at) == x,
{
    reveal(word_bytes);
    reveal(word_at);
    let w = bytes.subrange(at, at + 4);
    assert(w[0] == bytes[at] && w[1] == bytes[at + 1] && w[2] == bytes[at + 2] && w[3] == bytes[at
        + 3]);
    assert(x == x % 256 + x / 256 % 256 * 256 + x / 65536 % 256 * 65536 + x / 16777216 * 16777216)
        by {
        assert(x / 256 / 256 == x / 65536);
        assert(x / 65536 / 256 == x / 16777216);
    }
}

pub proof fn lemma_long_reads_back(bytes: Seq<u8>, at: int, x: u64)
    requires
        0 <= at,
        at + 8 <= bytes.len(),
        bytes.subrange(at, at + 8) == long_bytes(x),
    ensures
        long_at(bytes, at) == x,
{
    reveal(long_bytes);
    reveal(long_at);
    lemma_word_len((x % 4294967296) as u32);
    lemma_word_len((x / 4294967296) as u32);
    let w = bytes.subrange(at, at + 8);
    assert(w.subrange(0, 4) =~= word_bytes((x % 4294967296) as u32));
    assert(w.subrange(4, 8) =~= word_bytes((x / 4294967296) as u32));
    assert(bytes.subrange(at, at + 4) =~= w.subrange(0, 4));
    assert(bytes.subrange(at + 4, at + 8) =~= w.subrange(4, 8));
    lemma_word_reads_back(bytes, at, (x % 4294967296) as u32);
    lemma_word_reads_back(bytes, at + 4, (x / 4294967296) as u32);
}

pub proof fn lemma_words_read_back(bytes: Seq<u8>, at: int, words: Seq<u32>)
    requires
        0 <= at,
        at + 4 * words.len() <= bytes.len(),
        bytes.subrange(at, at + 4 * words.len()) == words_bytes(words),
    ensures
        words_at(bytes, at, words.len()) == words,
{
    let all = bytes.subrange(at, at + 4 * words.len());
    assert forall|i: int| 0 <= i < words.len() implies words_at(bytes, at, words.len())[i]
        == words[i] by {
        let k = at + 4 * i;
        let part = bytes.subrange(k, k + 4);
        assert forall|j: int| 0 <= j < 4 implies part[j] == word_bytes(words[i])[j] by {
            assert(part[j] == all[4 * i + j]);
            assert((4 * i + j) / 4 == i);
            assert((4 * i + j) % 4 == j);
        }
        lemma_word_len(words[i]);
        assert(part =~= word_bytes(words[i]));
        lemma_word_reads_back(bytes, k, words[i]);
    }
    assert(words_at(bytes, at, words.len()) =~= words);
}

/// A number's bytes are its digits to the base 256, the least significant first.
pub proof fn law_words_are_little_endian(x: u32)
    ensures
        word_bytes(x).len() == 4,
        x == word_bytes(x)[0] + 256 * word_bytes(x)[1] + 65536 * word_bytes(x)[2] + 16777216
            * word_bytes(x)[3],
{
    reveal(word_bytes);
    assert(x / 256 / 256 == x / 65536);
    assert(x / 65536 / 256 == x / 16777216);
}

/// Four bytes are read as the digits of a number to the base 256, the least significant first.
pub proof fn law_words_are_read_little_endian(bytes: Seq<u8>, at: int)
    ensures
        word_at(bytes, at) == bytes[at] + 256 * bytes[at + 1] + 65536 * bytes[at + 2] + 16777216
            * bytes[at + 3],
{
    reveal(word_at);
}

/// Eight bytes are two such numbers, the low one first.
pub proof fn law_longs_are_little_endian(x: u64, bytes: Seq<u8>, at: int)
    ensures
        long_bytes(x).len() == 8,
        long_bytes(x).subrange(0, 4) == word_bytes((x % 0x1_0000_0000) as u32),
        long_bytes(x).subrange(4, 8) == word_bytes((x / 0x1_0000_0000) as u32),
        long_at(bytes, at) == word_at(bytes, at) + 0x1_0000_0000 * word_at(bytes, at + 4),
{
    reveal(long_bytes);
    reveal(long_at);
    lemma_word_len((x % 0x1_0000_0000) as u32);
    lemma_word_len((x / 0x1_0000_0000) as u32);
    assert(long_bytes(x).subrange(0, 4) =~= word_bytes((x % 0x1_0000_0000) as u32));
    assert(long_bytes(x).subrange(4, 8) =~= word_bytes((x / 0x1_0000_0000) as u32));
}

/// A row of numbers has their bytes one after the other, and is read in the same way.
pub proof fn law_rows_of_words_follow_one_another(words: Seq<u32>, i: int, bytes: Seq<u8>, at: int)
    requires
        0 <= i < words.len(),
    ensures
        words_bytes(words).len() == 4 * words.len(),
        words_bytes(words).subrange(4 * i, 4 * i + 4) == word_bytes(words[i]),
        words_at(bytes, at, words.len()).len() == words.len(),
        words_at(bytes, at, words.len())[i] == word_at(bytes, at + 4 * i),
{
    lemma_word_len(words[i]);
    let part = words_bytes(words).subrange(4 * i, 4 * i + 4);
    assert forall|j: int| 0 <= j < 4 implies part[j] == word_bytes(words[i])[j] by {
        assert((4 * i + j) / 4 == i);
        assert((4 * i + j) % 4 == j);
    }
    assert(part =~= word_bytes(words[i]));
}

} // verus!
