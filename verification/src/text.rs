//! Small pieces of text: decimal numbers and concatenation.

use vstd::prelude::*;

verus! {

/// `String::push` of the standard library: appends one character to the end of the string.
pub assume_specification [String::push] (s: &mut String, c: char)
    ensures
        final(s)@ == old(s)@.push(c),
;

/// The character of a decimal digit.
pub open spec fn digit_char(d: nat) -> char {
    (48 + d) as char
}

/// The shortest decimal notation of a number, most significant digit first.
pub open spec fn decimal_chars(n: nat) -> Seq<char>
    decreases n,
{
    if n < 10 {
        seq![digit_char(n)]
    } else {
        decimal_chars(n / 10).push(digit_char(n % 10))
    }
}

/// The number that a row of decimal digits denotes.
pub open spec fn digits_value(s: Seq<char>) -> int
    decreases s.len(),
{
    if s.len() == 0 {
        0
    } else {
        digits_value(s.drop_last()) * 10 + (s.last() as int - 48)
    }
}

/// Decimal notation of a number.
pub fn decimal(n: u64) -> (text: String)
    ensures
        text@ == decimal_chars(n as nat),
    decreases n,
{
    let digit: char = (48u8 + (n % 10) as u8) as char;
    let mut text: String = if n < 10 {
        String::new()
    } else {
        decimal(n / 10)
    };
    text.push(digit);
    assert(text@ =~= decimal_chars(n as nat));
    text
}

/// Two texts, one after the other.
pub fn joined(head: &str, tail: &str) -> (text: String)
    ensures
        text@ == head@ + tail@,
{
    let mut text: String = String::new();
    text.append(head);
    text.append(tail);
    assert(text@ =~= head@ + tail@);
    text
}

/// Reading a number's decimal notation gives the number back.
pub proof fn law_decimal_reads_back(n: nat)
    ensures
        digits_value(decimal_chars(n)) == n,
    decreases n,
{
    reveal_with_fuel(digits_value, 2);
    if n < 10 {
        assert(decimal_chars(n).drop_last() =~= Seq::<char>::empty());
    } else {
        law_decimal_reads_back(n / 10);
        assert(decimal_chars(n).drop_last() =~= decimal_chars(n / 10));
    }
}

/// Decimal notation grows digit by digit: the notation of ten times a number plus a digit is the
/// number's own, followed by that digit's character. A number below ten is its digit.
pub proof fn law_decimal_appends_digits(n: nat, d: nat)
    requires
        d < 10,
    ensures
        n > 0 ==> decimal_chars(10 * n + d) == decimal_chars(n).push((48 + d) as char),
        decimal_chars(d) == seq![(48 + d) as char],
{
    assert((10 * n + d) / 10 == n);
    assert((10 * n + d) % 10 == d);
}

/// Decimal notation is made of digits, without leading zeros but for 0 itself.
pub proof fn law_decimal_is_made_of_digits(n: nat)
    ensures
        decimal_chars(n).len() > 0,
        forall|i: int|
            0 <= i < decimal_chars(n).len() ==> 48 <= #[trigger] decimal_chars(n)[i] as int <= 57,
        n > 0 ==> decimal_chars(n)[0] as int > 48,
    decreases n,
{
    if n >= 10 {
        law_decimal_is_made_of_digits(n / 10);
        assert(decimal_chars(n)[0] == decimal_chars(n / 10)[0]);
        assert forall|i: int| 0 <= i < decimal_chars(n).len() implies 48 <= #[trigger] decimal_chars(
            n,
        )[i] as int <= 57 by {
            if i < decimal_chars(n / 10).len() {
                assert(decimal_chars(n)[i] == decimal_chars(n / 10)[i]);
            }
        }
    }
}

/// Different numbers have different notations.
pub proof fn law_decimals_differ(a: nat, b: nat)
    requires
        decimal_chars(a) == decimal_chars(b),
    ensures
        a == b,
{
    law_decimal_reads_back(a);
    law_decimal_reads_back(b);
}

/// The value of a row of digits: another digit makes it ten times as much, plus the digit.
pub proof fn law_digits_count_tens(s: Seq<char>, c: char)
    ensures
        digits_value(s.push(c)) == 10 * digits_value(s) + (c as int - 48),
        digits_value(Seq::empty()) == 0,
{
    assert(s.push(c).drop_last() =~= s);
}

} // verus!
