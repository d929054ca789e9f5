//! Base64 with the standard alphabet and padding.

use vstd::prelude::*;

verus! {

/// The character that stands for a six-bit value.
pub open spec fn sextet_char(v: int) -> char {
    if v < 26 {
        (65 + v) as char
    } else if v < 52 {
        (97 + (v - 26)) as char
    } else if v < 62 {
        (48 + (v - 52)) as char
    } else if v == 62 {
        '+'
    } else {
        '/'
    }
}

/// The six-bit value that a character stands for; a padding character counts as 0.
pub open spec fn char_sextet(c: char) -> int {
    if 65 <= c as int <= 90 {
        c as int - 65
    } else if 97 <= c as int <= 122 {
        c as int - 97 + 26
    } else if 48 <= c as int <= 57 {
        c as int - 48 + 52
    } else if c == '+' {
        62
    } else if c == '/' {
        63
    } else {
        0
    }
}

/// The four characters for one to three bytes. The bytes are read as one 24-bit number,
/// with zeros for the missing ones; each missing byte turns one character into padding.
pub open spec fn group_chars(group: Seq<u8>) -> Seq<char> {
    let b0 = group[0] as int;
    let b1 = if group.len() > 1 { group[1] as int } else { 0 };
    let b2 = if group.len() > 2 { group[2] as int } else { 0 };
    let n = b0 * 65536 + b1 * 256 + b2;
    seq![
        sextet_char(n / 262144),
        sextet_char(n / 4096 % 64),
        if group.len() > 1 { sextet_char(n / 64 % 64) } else { '=' },
        if group.len() > 2 { sextet_char(n % 64) } else { '=' },
    ]
}

/// The Base64 text of some bytes: the groups of three in order, the last one possibly shorter.
pub open spec fn base64_chars(data: Seq<u8>) -> Seq<char>
    decreases data.len(),
{
    if data.len() == 0 {
        Seq::empty()
    } else if data.len() <= 3 {
        group_chars(data)
    } else {
        group_chars(data.take(3)) + base64_chars(data.skip(3))
    }
}

/// The bytes that four Base64 characters denote.
pub open spec fn group_bytes(chars: Seq<char>) -> Seq<u8> {
    let n = char_sextet(chars[0]) * 262144 + char_sextet(chars[1]) * 4096 + char_sextet(chars[2])
        * 64 + char_sextet(chars[3]);
    let all = seq![(n / 65536) as u8, (n / 256 % 256) as u8, (n % 256) as u8];
    if chars[2] == '=' {
        all.take(1)
    } else if chars[3] == '=' {
        all.take(2)
    } else {
        all
    }
}

/// The bytes that a Base64 text denotes.
pub open spec fn base64_bytes(chars: Seq<char>) -> Seq<u8>
    decreases chars.len(),
{
    if chars.len() < 4 {
        Seq::empty()
    } else {
        group_bytes(chars.take(4)) + base64_bytes(chars.skip(4))
    }
}

fn sextet(v: u32) -> (c: char)
    requires
        v < 64,
    ensures
        c == sextet_char(v as int),
{
    if v < 26 {
        (65u8 + v as u8) as char
    } else if v < 52 {
        (97u8 + (v - 26) as u8) as char
    } else if v < 62 {
        (48u8 + (v - 52) as u8) as char
    } else if v == 62 {
        '+'
    } else {
        '/'
    }
}

/// The Base64 text of some bytes.
pub fn to_base64(data: &[u8]) -> (text: String)
    ensures
        text@ == base64_chars(data@),
{
    let mut out: String = String::new();
    let mut i: usize = 0;
    assert(data@.skip(0) =~= data@);
    assert(out@ + base64_chars(data@) =~= base64_chars(data@));
    while i < data.len()
        invariant
            i <= data@.len(),
            out@ + base64_chars(data@.skip(i as int)) == base64_chars(data@),
        decreases data@.len() - i,
    {
        let left: usize = data.len() - i;
        let b0: u32 = data[i] as u32;
        let b1: u32 = if left > 1 { data[i + 1] as u32 } else { 0 };
        let b2: u32 = if left > 2 { data[i + 2] as u32 } else { 0 };
        let n: u32 = b0 * 65536 + b1 * 256 + b2;
        let ghost before = out@;
        let ghost rest = data@.skip(i as int);
        let ghost group = if left > 3 { rest.take(3) } else { rest };
        out.push(sextet(n / 262144));
        out.push(sextet(n / 4096 % 64));
        if left > 1 {
            out.push(sextet(n / 64 % 64));
        } else {
            out.push('=');
        }
        if left > 2 {
            out.push(sextet(n % 64));
        } else {
            out.push('=');
        }
        let step: usize = if left > 3 { 3 } else { left };
        proof {
            assert(group[0] == data@[i as int]);
            assert(left > 1 ==> group[1] == data@[i + 1]);
            assert(left > 2 ==> group[2] == data@[i + 2]);
            assert(out@ =~= before + group_chars(group));
            assert(data@.skip(i + step) =~= rest.skip(step as int));
            if left > 3 {
                assert(base64_chars(rest) == group_chars(group) + base64_chars(rest.skip(3)));
                assert(out@ + base64_chars(rest.skip(3)) =~= before + base64_chars(rest));
            } else {
                assert(rest.skip(step as int) =~= Seq::<u8>::empty());
                assert(out@ + Seq::<char>::empty() =~= before + base64_chars(rest));
            }
        }
        i += step;
    }
    proof {
        assert(data@.skip(i as int) =~= Seq::<u8>::empty());
        assert(out@ + Seq::<char>::empty() =~= out@);
    }
    out
}

proof fn lemma_sextet_reads_back(v: int)
    requires
        0 <= v < 64,
    ensures
        char_sextet(sextet_char(v)) == v,
        sextet_char(v) != '=',
{
}

/// The four sextets of a 24-bit number make it up.
proof fn lemma_sextets(n: int)
    requires
        0 <= n < 16777216,
    ensures
        0 <= n / 262144 < 64,
        n == n / 262144 * 262144 + n / 4096 % 64 * 4096 + n / 64 % 64 * 64 + n % 64,
{
    assert(n / 4096 / 64 == n / 262144);
    assert(n / 64 / 64 == n / 4096);
}

/// The three bytes of a 24-bit number are its digits to the base 256.
proof fn lemma_bytes_of(b0: int, b1: int, b2: int)
    requires
        0 <= b0 < 256,
        0 <= b1 < 256,
        0 <= b2 < 256,
    ensures
        ({
            let n = b0 * 65536 + b1 * 256 + b2;
            &&& n / 65536 == b0
            &&& n / 256 % 256 == b1
            &&& n % 256 == b2
            &&& 0 <= n < 16777216
            &&& b2 == 0 ==> n % 64 == 0
            &&& b2 == 0 && b1 == 0 ==> n / 64 % 64 == 0
        }),
{
    let n = b0 * 65536 + b1 * 256 + b2;
    assert(n / 256 == b0 * 256 + b1);
}

proof fn lemma_group_reads_back(group: Seq<u8>)
    requires
        1 <= group.len() <= 3,
    ensures
        group_bytes(group_chars(group)) == group,
{
    let b0 = group[0] as int;
    let b1 = if group.len() > 1 { group[1] as int } else { 0 };
    let b2 = if group.len() > 2 { group[2] as int } else { 0 };
    let n = b0 * 65536 + b1 * 256 + b2;
    lemma_bytes_of(b0, b1, b2);
    lemma_sextets(n);
    let (s0, s1, s2, s3) = (n / 262144, n / 4096 % 64, n / 64 % 64, n % 64);
    lemma_sextet_reads_back(s0);
    lemma_sextet_reads_back(s1);
    lemma_sextet_reads_back(s2);
    lemma_sextet_reads_back(s3);
    let chars = group_chars(group);
    assert(char_sextet(chars[0]) == s0);
    assert(char_sextet(chars[1]) == s1);
    assert(char_sextet(chars[2]) == s2);
    assert(char_sextet(chars[3]) == s3);
    assert(char_sextet(chars[0]) * 262144 + char_sextet(chars[1]) * 4096 + char_sextet(chars[2])
        * 64 + char_sextet(chars[3]) == n);
    let all = seq![(n / 65536) as u8, (n / 256 % 256) as u8, (n % 256) as u8];
    assert(all =~= seq![b0 as u8, b1 as u8, b2 as u8]);
    assert(group_bytes(chars) =~= group);
}

/// The text of `n` bytes has four characters for every three bytes begun.
pub proof fn law_base64_length(data: Seq<u8>)
    ensures
        base64_chars(data).len() == (data.len() + 2) / 3 * 4,
    decreases data.len(),
{
    if data.len() > 3 {
        law_base64_length(data.skip(3));
    }
}

/// Reading a Base64 text gives back the bytes it was made from.
pub proof fn law_base64_reads_back(data: Seq<u8>)
    ensures
        base64_bytes(base64_chars(data)) == data,
    decreases data.len(),
{
    let chars = base64_chars(data);
    if data.len() == 0 {
        assert(base64_bytes(chars) =~= data);
    } else if data.len() <= 3 {
        lemma_group_reads_back(data);
        assert(chars.take(4) =~= group_chars(data));
        assert(chars.skip(4) =~= Seq::<char>::empty());
        assert(base64_bytes(chars.skip(4)) =~= Seq::<u8>::empty());
        assert(base64_bytes(chars) =~= data);
    } else {
        lemma_group_reads_back(data.take(3));
        law_base64_reads_back(data.skip(3));
        assert(chars.take(4) =~= group_chars(data.take(3)));
        assert(chars.skip(4) =~= base64_chars(data.skip(3)));
        assert(base64_bytes(chars) =~= data.take(3) + data.skip(3));
        assert(data.take(3) + data.skip(3) =~= data);
    }
}

/// The alphabet: capital letters, small letters, digits, plus and slash, in this order.
pub proof fn law_base64_alphabet(v: int)
    requires
        0 <= v < 64,
    ensures
        v < 26 ==> sextet_char(v) as int == 65 + v,
        26 <= v < 52 ==> sextet_char(v) as int == 97 + v - 26,
        52 <= v < 62 ==> sextet_char(v) as int == 48 + v - 52,
        v == 62 ==> sextet_char(v) == '+',
        v == 63 ==> sextet_char(v) == '/',
{
}

/// Three bytes are four characters of six bits each, the most significant first; one or two bytes
/// at the end are filled up with zeros, and the characters that hold none of their bits are
/// padding. A text goes on with the text of what follows.
pub proof fn law_base64_groups(a: u8, b: u8, c: u8, rest: Seq<u8>)
    ensures
        base64_chars(seq![a, b, c] + rest).take(4) == seq![
            sextet_char(a as int / 4),
            sextet_char(a as int % 4 * 16 + b as int / 16),
            sextet_char(b as int % 16 * 4 + c as int / 64),
            sextet_char(c as int % 64),
        ],
        base64_chars(seq![a, b, c] + rest).skip(4) == base64_chars(rest),
        base64_chars(seq![a, b]) == seq![
            sextet_char(a as int / 4),
            sextet_char(a as int % 4 * 16 + b as int / 16),
            sextet_char(b as int % 16 * 4),
            '=',
        ],
        base64_chars(seq![a]) == seq![
            sextet_char(a as int / 4),
            sextet_char(a as int % 4 * 16),
            '=',
            '=',
        ],
        base64_chars(Seq::empty()) == Seq::<char>::empty(),
{
    lemma_six_bits(a as int, b as int, c as int);
    lemma_six_bits(a as int, b as int, 0);
    lemma_six_bits(a as int, 0, 0);
    let data = seq![a, b, c] + rest;
    let three = seq![a, b, c];
    assert(data.take(3) =~= three);
    assert(data.skip(3) =~= rest);
    if rest.len() == 0 {
        assert(data =~= three);
        assert(base64_chars(data).skip(4) =~= base64_chars(rest));
        assert(base64_chars(data).take(4) =~= base64_chars(data));
    } else {
        assert(base64_chars(data) == group_chars(three) + base64_chars(rest));
        assert(base64_chars(data).take(4) =~= group_chars(three));
        assert(base64_chars(data).skip(4) =~= base64_chars(rest));
    }
}

proof fn lemma_six_bits(a: int, b: int, c: int)
    requires
        0 <= a < 256,
        0 <= b < 256,
        0 <= c < 256,
    ensures
        ({
            let n = a * 65536 + b * 256 + c;
            &&& n / 262144 == a / 4
            &&& n / 4096 % 64 == a % 4 * 16 + b / 16
            &&& n / 64 % 64 == b % 16 * 4 + c / 64
            &&& n % 64 == c % 64
        }),
{
    let n = a * 65536 + b * 256 + c;
    let (a1, a0) = (a / 4, a % 4);
    let (b1, b0) = (b / 16, b % 16);
    let (c1, c0) = (c / 64, c % 64);
    assert(a == 4 * a1 + a0 && b == 16 * b1 + b0 && c == 64 * c1 + c0);
    let (s1, s2) = (a0 * 16 + b1, b0 * 4 + c1);
    assert(n == 262144 * a1 + 4096 * s1 + 64 * s2 + c0);
    assert(0 <= s1 < 64 && 0 <= s2 < 64);
    assert(n / 262144 == a1);
    assert(n / 4096 == 64 * a1 + s1);
    assert(n / 64 == 4096 * a1 + 64 * s1 + s2);
}

} // verus!
