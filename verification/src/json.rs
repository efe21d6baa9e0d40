//! Text as a JSON string.

use vstd::prelude::*;
use crate::bytes::{append_text, text};

verus! {

pub const QUOTE: u8 = 0x22;

pub const BACKSLASH: u8 = 0x5c;

/// The lower-case hexadecimal digit of a value below 16.
pub open spec fn hex_digit(v: u8) -> u8 {
    if v < 10 {
        (0x30 + v) as u8
    } else {
        (0x61 + (v - 10)) as u8
    }
}

/// How one byte stands inside a JSON string. The quote and the backslash
/// get a backslash before them; the control characters below U+0020 get
/// their short escape where JSON has one and `\u00XX` where it has none;
/// every other byte stands for itself.
pub open spec fn escaped_byte(b: u8) -> Seq<u8> {
    if b == QUOTE {
        text("\\\"")
    } else if b == BACKSLASH {
        text("\\\\")
    } else if b == 0x08 {
        text("\\b")
    } else if b == 0x09 {
        text("\\t")
    } else if b == 0x0a {
        text("\\n")
    } else if b == 0x0c {
        text("\\f")
    } else if b == 0x0d {
        text("\\r")
    } else if b < 0x20 {
        text("\\u00") + seq![hex_digit(b / 16), hex_digit(b % 16)]
    } else {
        seq![b]
    }
}

/// A text with each of its bytes escaped.
pub open spec fn escaped(s: Seq<u8>) -> Seq<u8>
    decreases s.len(),
{
    if s.len() == 0 {
        Seq::empty()
    } else {
        escaped(s.drop_last()) + escaped_byte(s.last())
    }
}

/// A text as a JSON string: escaped, between quotes.
pub open spec fn json_string(s: Seq<u8>) -> Seq<u8> {
    text("\"") + escaped(s) + text("\"")
}

fn hex_digit_of(v: u8) -> (r: u8)
    requires
        v < 16,
    ensures
        r == hex_digit(v),
{
    if v < 10 {
        0x30 + v
    } else {
        0x61 + (v - 10)
    }
}

/// Appends one byte to `out` as it stands inside a JSON string.
pub fn append_escaped_byte(out: &mut Vec<u8>, b: u8)
    ensures
        final(out)@ == old(out)@ + escaped_byte(b),
{
    if b == QUOTE {
        append_text(out, "\\\"");
    } else if b == BACKSLASH {
        append_text(out, "\\\\");
    } else if b == 0x08 {
        append_text(out, "\\b");
    } else if b == 0x09 {
        append_text(out, "\\t");
    } else if b == 0x0a {
        append_text(out, "\\n");
    } else if b == 0x0c {
        append_text(out, "\\f");
    } else if b == 0x0d {
        append_text(out, "\\r");
    } else if b < 0x20 {
        append_text(out, "\\u00");
        out.push(hex_digit_of(b / 16));
        out.push(hex_digit_of(b % 16));
        assert(out@ =~= old(out)@ + escaped_byte(b));
    } else {
        out.push(b);
        assert(out@ =~= old(out)@ + escaped_byte(b));
    }
}

/// Appends a text to `out` as a JSON string.
pub fn append_json_string(out: &mut Vec<u8>, s: &[u8])
    ensures
        final(out)@ == old(out)@ + json_string(s@),
{
    append_text(out, "\"");
    let ghost start = out@;
    let mut i: usize = 0;
    assert(s@.subrange(0, 0) =~= Seq::<u8>::empty());
    assert(start + Seq::<u8>::empty() =~= start);
    while i < s.len()
        invariant
            i <= s.len(),
            out@ == start + escaped(s@.subrange(0, i as int)),
        decreases s.len() - i,
    {
        let ghost before = s@.subrange(0, i as int);
        let ghost next = s@.subrange(0, i + 1);
        append_escaped_byte(out, s[i]);
        proof {
            assert(next.drop_last() =~= before);
            assert(next.last() == s@[i as int]);
            assert(out@ =~= start + escaped(next));
        }
        i += 1;
    }
    assert(s@.subrange(0, i as int) =~= s@);
    append_text(out, "\"");
    assert(out@ =~= old(out)@ + json_string(s@));
}

} // verus!
