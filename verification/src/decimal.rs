//! Numbers in decimal notation.

use vstd::prelude::*;

verus! {

/// The character for a digit below ten.
pub open spec fn digit_char(d: nat) -> char {
    ((0x30 + d) as u8) as char
}

/// Whether the character is one of the digits `0` to `9`.
pub open spec fn is_digit(c: char) -> bool {
    0x30 <= (c as u32) && (c as u32) <= 0x39
}

/// The digit that a digit character stands for.
pub open spec fn digit_value(c: char) -> nat {
    ((c as u32) - 0x30) as nat
}

/// The decimal notation of a number, without leading zeros.
pub open spec fn decimal(n: nat) -> Seq<char>
    decreases n,
{
    if n < 10 {
        seq![digit_char(n)]
    } else {
        decimal(n / 10).push(digit_char(n % 10))
    }
}

/// Whether every character of the text is a digit.
pub open spec fn all_digits(text: Seq<char>) -> bool {
    forall|i: int| 0 <= i < text.len() ==> is_digit(#[trigger] text[i])
}

/// The number that a text of digits denotes; leading zeros do not count.
pub open spec fn digits_value(text: Seq<char>) -> nat
    decreases text.len(),
{
    if text.len() == 0 {
        0
    } else {
        digits_value(text.drop_last()) * 10 + digit_value(text.last())
    }
}

/// The number that a text denotes: the text is to hold one digit or more and
/// nothing else, and the number is to fit the machine word.
pub open spec fn parse_decimal(text: Seq<char>) -> Option<usize> {
    if text.len() > 0 && all_digits(text) && digits_value(text) <= usize::MAX {
        Some(digits_value(text) as usize)
    } else {
        None
    }
}

/// The notation of a number holds digits only, one at least, and denotes the number.
pub proof fn lemma_decimal_digits(n: nat)
    ensures
        decimal(n).len() > 0,
        all_digits(decimal(n)),
        digits_value(decimal(n)) == n,
    decreases n,
{
    if n < 10 {
        assert(decimal(n).drop_last() =~= Seq::<char>::empty());
        assert(digits_value(decimal(n).drop_last()) == 0);
    } else {
        lemma_decimal_digits(n / 10);
        assert(decimal(n).drop_last() =~= decimal(n / 10));
    }
}

/// Reading the notation of a number gives the number back.
pub proof fn lemma_parse_decimal(n: usize)
    ensures
        parse_decimal(decimal(n as nat)) == Some(n),
{
    lemma_decimal_digits(n as nat);
}

/// A longer text of digits denotes no less than its beginning.
proof fn lemma_digits_value_grows(text: Seq<char>, k: int)
    requires
        0 <= k <= text.len(),
    ensures
        digits_value(text.take(k)) <= digits_value(text),
    decreases text.len() - k,
{
    if k < text.len() {
        lemma_digits_value_grows(text, k + 1);
        assert(text.take(k + 1).drop_last() =~= text.take(k));
        assert(digits_value(text.take(k)) <= digits_value(text.take(k + 1))) by (nonlinear_arith)
            requires
                digits_value(text.take(k + 1)) == digits_value(text.take(k)) * 10 + digit_value(
                    text.take(k + 1).last(),
                ),
        ;
    } else {
        assert(text.take(k) =~= text);
    }
}

/// Appends the decimal notation of `n` to `out`.
pub fn push_decimal(out: &mut String, n: usize)
    ensures
        final(out)@ == old(out)@ + decimal(n as nat),
    decreases n,
{
    if n >= 10 {
        push_decimal(out, n / 10);
    }
    let d: u8 = (n % 10) as u8;
    out.push((0x30u8 + d) as char);
    proof {
        if n >= 10 {
            assert(out@ =~= old(out)@ + decimal(n as nat));
        } else {
            assert(out@ =~= old(out)@ + decimal(n as nat));
        }
    }
}

/// Reads the characters of `chars` from position `lo` up to, not including,
/// `hi` as a number in decimal notation.
pub fn parse_decimal_at(chars: &Vec<char>, lo: usize, hi: usize) -> (value: Option<usize>)
    requires
        lo <= hi <= chars@.len(),
    ensures
        value == parse_decimal(chars@.subrange(lo as int, hi as int)),
{
    let ghost text = chars@.subrange(lo as int, hi as int);
    if lo == hi {
        return None;
    }
    let mut value: usize = 0;
    let mut i: usize = lo;
    proof {
        assert(text.take(0) =~= Seq::<char>::empty());
    }
    while i < hi
        invariant
            lo <= i <= hi <= chars@.len(),
            text == chars@.subrange(lo as int, hi as int),
            all_digits(text.take(i - lo)),
            value == digits_value(text.take(i - lo)),
        decreases hi - i,
    {
        let c = chars[i];
        let v: u32 = c as u32;
        assert(text[i - lo] == c);
        if v < 0x30 || v > 0x39 {
            assert(!all_digits(text));
            return None;
        }
        let d: usize = (v - 0x30) as usize;
        proof {
            assert(text.take(i - lo + 1).drop_last() =~= text.take(i - lo));
            assert(text.take(i - lo + 1).last() == c);
            lemma_digits_value_grows(text, i - lo + 1);
        }
        if value > (usize::MAX - d) / 10 {
            assert(digits_value(text.take(i - lo + 1)) > usize::MAX);
            return None;
        }
        value = value * 10 + d;
        i = i + 1;
    }
    assert(text.take(i - lo) =~= text);
    Some(value)
}

} // verus!
