//! Lines of a text, and the text with its lines numbered.

use vstd::prelude::*;
use crate::bytes::{append, append_text, find_byte, find_byte_from, text};

verus! {

pub const NEWLINE: u8 = 0x0a;

pub const CARRIAGE_RETURN: u8 = 0x0d;

pub const SPACE: u8 = 0x20;

pub const DIGIT_ZERO: u8 = 0x30;

/// The width to which a line's number is filled up.
pub const NUMBER_WIDTH: usize = 4;

/// A line without the carriage return that may stand before its newline.
pub open spec fn trim_cr(line: Seq<u8>) -> Seq<u8> {
    if line.len() > 0 && line.last() == CARRIAGE_RETURN {
        line.drop_last()
    } else {
        line
    }
}

/// The lines of a text. A line ends with a newline, or with a carriage
/// return and a newline, neither of which belongs to it; the last line may
/// end with the text. A text that ends with a newline has no empty line
/// after it.
pub open spec fn lines(s: Seq<u8>) -> Seq<Seq<u8>>
    decreases s.len(),
{
    if s.len() == 0 {
        Seq::empty()
    } else {
        let end = find_byte(s, NEWLINE, 0);
        if 0 <= end < s.len() {
            seq![trim_cr(s.subrange(0, end))] + lines(s.subrange(end + 1, s.len() as int))
        } else {
            seq![s]
        }
    }
}

/// The decimal digits of a number.
pub open spec fn decimal(n: nat) -> Seq<u8>
    decreases n,
{
    if n < 10 {
        seq![(DIGIT_ZERO + n) as u8]
    } else {
        decimal(n / 10).push((DIGIT_ZERO + n % 10) as u8)
    }
}

/// `count` spaces; none where `count` is not positive.
pub open spec fn spaces(count: int) -> Seq<u8> {
    Seq::new(
        if count > 0 {
            count as nat
        } else {
            0
        },
        |i: int| SPACE,
    )
}

/// A text set to the right of a field of `width` bytes. A longer text is
/// left as it is.
pub open spec fn right_aligned(s: Seq<u8>, width: nat) -> Seq<u8> {
    spaces(width - s.len()) + s
}

/// One numbered line: the number, right-aligned to four places, two
/// spaces, the line, a newline.
pub open spec fn numbered_line(number: nat, line: Seq<u8>) -> Seq<u8> {
    right_aligned(decimal(number), NUMBER_WIDTH as nat) + text("  ") + line + seq![NEWLINE]
}

/// The lines, each with its number, counted from `first`.
pub open spec fn number_lines(ls: Seq<Seq<u8>>, first: nat) -> Seq<u8>
    decreases ls.len(),
{
    if ls.len() == 0 {
        Seq::empty()
    } else {
        numbered_line(first, ls[0]) + number_lines(ls.drop_first(), first + 1)
    }
}

/// A text with its lines numbered from 1.
pub open spec fn numbered(s: Seq<u8>) -> Seq<u8> {
    number_lines(lines(s), 1)
}

/// Appends the decimal digits of `n` to `out`.
pub fn append_decimal(out: &mut Vec<u8>, n: usize)
    ensures
        final(out)@ == old(out)@ + decimal(n as nat),
    decreases n,
{
    if n < 10 {
        out.push(DIGIT_ZERO + (n as u8));
        assert(out@ =~= old(out)@ + decimal(n as nat));
    } else {
        append_decimal(out, n / 10);
        out.push(DIGIT_ZERO + ((n % 10) as u8));
        assert(out@ =~= old(out)@ + decimal(n as nat));
    }
}

/// Appends `s` to `out`, set to the right of a field of `width` bytes.
pub fn append_right_aligned(out: &mut Vec<u8>, s: &[u8], width: usize)
    ensures
        final(out)@ == old(out)@ + right_aligned(s@, width as nat),
{
    let mut k: usize = s.len();
    while k < width
        invariant
            s.len() <= k,
            k <= width || k == s.len(),
            out@ == old(out)@ + spaces(k - s.len()),
        decreases width - k,
    {
        out.push(SPACE);
        assert(out@ =~= old(out)@ + spaces(k + 1 - s.len()));
        k += 1;
    }
    assert(spaces(k - s.len()) =~= spaces(width - s.len()));
    append(out, s);
    assert(out@ =~= old(out)@ + right_aligned(s@, width as nat));
}

/// Appends one numbered line to `out`.
pub fn append_numbered_line(out: &mut Vec<u8>, number: usize, line: &[u8])
    ensures
        final(out)@ == old(out)@ + numbered_line(number as nat, line@),
{
    let mut digits: Vec<u8> = Vec::new();
    append_decimal(&mut digits, number);
    assert(digits@ =~= decimal(number as nat));
    append_right_aligned(out, digits.as_slice(), NUMBER_WIDTH);
    append_text(out, "  ");
    append(out, line);
    out.push(NEWLINE);
    assert(out@ =~= old(out)@ + numbered_line(number as nat, line@));
}

/// Appends `content` to `out` with its lines numbered from 1.
pub fn append_numbered(out: &mut Vec<u8>, content: &[u8])
    ensures
        final(out)@ == old(out)@ + numbered(content@),
{
    let mut pos: usize = 0;
    let mut count: usize = 0;
    assert(content@.subrange(0, content@.len() as int) =~= content@);
    assert(old(out)@ + Seq::<u8>::empty() =~= old(out)@);
    let ghost mut done: Seq<u8> = Seq::empty();
    while pos < content.len()
        invariant
            pos <= content.len(),
            count <= pos,
            out@ == old(out)@ + done,
            done + number_lines(
                lines(content@.subrange(pos as int, content@.len() as int)),
                (count + 1) as nat,
            ) == numbered(content@),
        decreases content.len() - pos,
    {
        let ghost rest = content@.subrange(pos as int, content@.len() as int);
        let end = find_byte_from(content, NEWLINE, pos);
        proof {
            lemma_find_byte_shift(content@, NEWLINE, pos as int, pos as int);
        }
        let ghost here = find_byte(rest, NEWLINE, 0);
        assert(here == end - pos);
        let mut stop: usize = end;
        if end < content.len() && end > pos && content[end - 1] == CARRIAGE_RETURN {
            stop = end - 1;
        }
        let line = &content[pos..stop];
        let ghost tail = if end < content.len() {
            content@.subrange(end + 1, content@.len() as int)
        } else {
            Seq::<u8>::empty()
        };
        proof {
            if end < content.len() {
                assert(rest.subrange(0, here) =~= content@.subrange(pos as int, end as int));
                assert(rest.subrange(here + 1, rest.len() as int) =~= tail);
                assert(line@ =~= trim_cr(rest.subrange(0, here)));
                assert(lines(rest) == seq![line@] + lines(tail));
            } else {
                assert(line@ =~= rest);
                assert(lines(tail) =~= Seq::<Seq<u8>>::empty());
                assert(lines(rest) =~= seq![line@] + lines(tail));
            }
            let ls = seq![line@] + lines(tail);
            assert(ls[0] == line@);
            assert(ls.drop_first() =~= lines(tail));
            assert(number_lines(ls, (count + 1) as nat) == numbered_line(
                (count + 1) as nat,
                line@,
            ) + number_lines(lines(tail), (count + 2) as nat));
        }
        append_numbered_line(out, count + 1, line);
        proof {
            let piece = numbered_line((count + 1) as nat, line@);
            let after = number_lines(lines(tail), (count + 2) as nat);
            assert((done + piece) + after =~= done + (piece + after));
            assert(out@ =~= old(out)@ + (done + piece));
            done = done + piece;
        }
        count += 1;
        if end < content.len() {
            pos = end + 1;
        } else {
            pos = content.len();
            assert(content@.subrange(pos as int, content@.len() as int) =~= tail);
        }
    }
    proof {
        let rest = content@.subrange(pos as int, content@.len() as int);
        assert(rest.len() == 0);
        assert(done + Seq::<u8>::empty() =~= done);
    }
}

/// Searching a suffix finds what searching the whole finds from there on.
pub proof fn lemma_find_byte_shift(s: Seq<u8>, b: u8, start: int, from: int)
    requires
        0 <= start <= from <= s.len(),
    ensures
        find_byte(s.subrange(start, s.len() as int), b, from - start) == find_byte(s, b, from)
            - start,
    decreases s.len() - from,
{
    let t = s.subrange(start, s.len() as int);
    if from < s.len() {
        assert(t[from - start] == s[from]);
        if s[from] != b {
            lemma_find_byte_shift(s, b, start, from + 1);
        }
    }
}

} // verus!
