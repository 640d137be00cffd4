//! Rendering the bytes of a token as readable text.
//!
//! The rendering reads the bytes as UTF-8, puts the replacement character in
//! the place of what is not UTF-8, and writes each control character as an
//! escape. It serves to show tokens to a reader: it does not give the bytes back.

use crate::lines::chars_of;
use crate::strings::{lossy_string, utf8_lossy};
use vstd::prelude::*;
use vstd::utf8::{decode_utf8, valid_utf8};

verus! {

/// The lossy reading of bytes as text: their decoding where they are UTF-8, and
/// the text with replacement characters otherwise.
pub open spec fn lossy_text(bytes: Seq<u8>) -> Seq<char> {
    if valid_utf8(bytes) {
        decode_utf8(bytes)
    } else {
        utf8_lossy(bytes)
    }
}

/// Whether `c` is a control character: one of the general category `Cc`,
/// which holds the code points up to U+001F and from U+007F to U+009F.
pub open spec fn is_control(c: char) -> bool {
    (c as u32) <= 0x1f || (0x7f <= (c as u32) && (c as u32) <= 0x9f)
}

/// The lower-case hexadecimal digit for a number below 16.
pub open spec fn hex_digit(n: u32) -> char {
    if n < 10 {
        ((0x30 + n) as u8) as char
    } else {
        ((0x61 + (n - 10)) as u8) as char
    }
}

/// How one character is rendered: a control character as the escape
/// `\u{XXXX}` with its code point in four hexadecimal digits, any other
/// character as itself.
pub open spec fn escaped_char(c: char) -> Seq<char> {
    if is_control(c) {
        let v = c as u32;
        seq![
            '\\',
            'u',
            '{',
            hex_digit(v / 0x1000 % 16),
            hex_digit(v / 0x100 % 16),
            hex_digit(v / 0x10 % 16),
            hex_digit(v % 16),
            '}',
        ]
    } else {
        seq![c]
    }
}

/// A text with each of its characters rendered by [`escaped_char`].
pub open spec fn escaped(text: Seq<char>) -> Seq<char>
    decreases text.len(),
{
    if text.len() == 0 {
        seq![]
    } else {
        escaped(text.drop_last()) + escaped_char(text.last())
    }
}

/// The rendering of a token's bytes: their lossy reading, with the control
/// characters escaped.
pub open spec fn rendered(bytes: Seq<u8>) -> Seq<char> {
    escaped(lossy_text(bytes))
}

/// A text without control characters is rendered as itself.
pub proof fn lemma_escaped_plain(text: Seq<char>)
    requires
        forall|i: int| 0 <= i < text.len() ==> !is_control(#[trigger] text[i]),
    ensures
        escaped(text) == text,
    decreases text.len(),
{
    if text.len() > 0 {
        lemma_escaped_plain(text.drop_last());
        assert(escaped(text) =~= text);
    }
}

/// Rendering goes character by character: the rendering of two texts in a row
/// is the rendering of the first followed by that of the second.
pub proof fn lemma_escaped_concat(first: Seq<char>, second: Seq<char>)
    ensures
        escaped(first + second) == escaped(first) + escaped(second),
    decreases second.len(),
{
    if second.len() == 0 {
        assert(first + second =~= first);
        assert(escaped(first) + escaped(second) =~= escaped(first));
    } else {
        lemma_escaped_concat(first, second.drop_last());
        assert((first + second).drop_last() =~= first + second.drop_last());
        assert((first + second).last() == second.last());
        assert((escaped(first) + escaped(second.drop_last())) + escaped_char(second.last())
            =~= escaped(first) + (escaped(second.drop_last()) + escaped_char(second.last())));
    }
}

fn hex_digit_of(n: u32) -> (c: char)
    requires
        n < 16,
    ensures
        c == hex_digit(n),
{
    if n < 10 {
        (0x30u8 + (n as u8)) as char
    } else {
        (0x61u8 + ((n - 10) as u8)) as char
    }
}

/// Whether `c` is a control character.
pub fn is_control_char(c: char) -> (b: bool)
    ensures
        b == is_control(c),
{
    let v: u32 = c as u32;
    v <= 0x1f || (0x7f <= v && v <= 0x9f)
}

/// Appends the rendering of one character to `out`.
fn push_escaped(out: &mut String, c: char)
    ensures
        final(out)@ == old(out)@ + escaped_char(c),
{
    if is_control_char(c) {
        let v: u32 = c as u32;
        out.push('\\');
        out.push('u');
        out.push('{');
        out.push(hex_digit_of(v / 0x1000 % 16));
        out.push(hex_digit_of(v / 0x100 % 16));
        out.push(hex_digit_of(v / 0x10 % 16));
        out.push(hex_digit_of(v % 16));
        out.push('}');
        assert(out@ =~= old(out)@ + escaped_char(c));
    } else {
        out.push(c);
        assert(out@ =~= old(out)@ + escaped_char(c));
    }
}

/// Writes each control character of `text` as an escape and keeps the others.
pub fn escape_controls(text: &str) -> (out: String)
    ensures
        out@ == escaped(text@),
{
    let chars = chars_of(text);
    let mut out = String::new();
    let mut i: usize = 0;
    while i < chars.len()
        invariant
            i <= chars@.len(),
            chars@ == text@,
            out@ == escaped(text@.take(i as int)),
        decreases chars@.len() - i,
    {
        push_escaped(&mut out, chars[i]);
        proof {
            assert(text@.take(i + 1).drop_last() =~= text@.take(i as int));
        }
        i = i + 1;
    }
    assert(text@.take(i as int) =~= text@);
    out
}

/// Renders the bytes of a token.
pub fn render_token(bytes: &Vec<u8>) -> (out: String)
    ensures
        out@ == rendered(bytes@),
{
    let text = lossy_string(bytes);
    escape_controls(text.as_str())
}

} // verus!
