//! Reading a document of `<document>` elements back into files.
//!
//! The text is scanned for elements `<document path="...">` ...
//! `</document>`. The value of the attribute `path` names the file. What
//! stands between an opening tag and the next closing tag is the file's
//! contents, byte for byte, but for one newline that ends the opening tag's
//! line. Everything outside the elements is passed over.

use vstd::prelude::*;
use crate::bytes::{append, copy_range, find, find_byte, find_byte_from, find_from, matches_at, starts_with_at, text};
use crate::json::QUOTE;
use crate::lines::{CARRIAGE_RETURN, NEWLINE, SPACE};
use crate::path::SLASH;

verus! {

pub const GREATER_THAN: u8 = 0x3e;

pub const TAB: u8 = 0x09;

/// What is wrong with a document that cannot be read to its end.
#[derive(Clone, Copy, Debug, PartialEq, Eq, Structural)]
pub enum ParseError {
    /// An opening tag has no `>`, or a quote in it is not closed.
    UnterminatedTag,
    /// An element is not closed before the text ends.
    UnclosedDocument,
    /// A closing tag stands outside every element.
    UnexpectedClose,
}

/// One element of a document: the path its opening tag gives, its
/// contents, and the place right after its closing tag.
pub struct Block {
    pub path: Seq<u8>,
    pub content: Seq<u8>,
    pub next: int,
}

/// One file read back from a document.
pub struct RestoredFile {
    pub path: Vec<u8>,
    pub content: Vec<u8>,
}

/// What stands next in a document.
pub enum Step {
    /// An element with a path: a file to write. Reading goes on at `next`.
    File { file: RestoredFile, next: usize },
    /// An element whose path is empty or missing: nothing to write.
    Skip { next: usize },
    /// No further element.
    End,
}

/// The files of a document, and what stopped the reading if anything did.
pub struct Restored {
    /// The files of the elements read, in their order.
    pub files: Vec<RestoredFile>,
    /// Why reading stopped before the end of the text.
    pub error: Option<ParseError>,
}

/// The start of an opening tag, without what ends the tag's name.
pub open spec fn open_tag() -> Seq<u8> {
    text("<document")
}

/// The closing tag.
pub open spec fn close_tag() -> Seq<u8> {
    text("</document>")
}

/// A byte that may follow the name in an opening tag.
pub open spec fn is_boundary(b: u8) -> bool {
    b == SPACE || b == GREATER_THAN || b == TAB || b == NEWLINE || b == CARRIAGE_RETURN
}

/// An opening tag starts at `i`.
pub open spec fn opens_at(s: Seq<u8>, i: int) -> bool {
    &&& matches_at(s, i, open_tag())
    &&& i + open_tag().len() < s.len()
    &&& is_boundary(s[i + open_tag().len()])
}

/// A closing tag starts at `i`.
pub open spec fn closes_at(s: Seq<u8>, i: int) -> bool {
    matches_at(s, i, close_tag())
}

/// Where the first tag at or after `from` starts; `s.len()` when there is
/// none.
pub open spec fn next_tag(s: Seq<u8>, from: int) -> int
    decreases s.len() - from,
{
    if from < 0 || from >= s.len() {
        s.len() as int
    } else if opens_at(s, from) || closes_at(s, from) {
        from
    } else {
        next_tag(s, from + 1)
    }
}

/// Where the first quote or `>` at or after `from` stands; `s.len()` when
/// there is none.
pub open spec fn quote_or_end(s: Seq<u8>, from: int) -> int
    decreases s.len() - from,
{
    if from < 0 || from >= s.len() {
        s.len() as int
    } else if s[from] == QUOTE || s[from] == GREATER_THAN {
        from
    } else {
        quote_or_end(s, from + 1)
    }
}

/// The element whose contents start at `body`, after an opening tag that
/// gave `path`. The contents run up to the first closing tag.
pub open spec fn block_body(s: Seq<u8>, path: Seq<u8>, body: int) -> Result<Block, ParseError> {
    let start = if 0 <= body < s.len() && s[body] == NEWLINE {
        body + 1
    } else {
        body
    };
    let close = find(s, close_tag(), start);
    if 0 <= start <= close < s.len() {
        Ok(Block { path, content: s.subrange(start, close), next: close + close_tag().len() })
    } else {
        Err(ParseError::UnclosedDocument)
    }
}

/// What an opening tag gives: the path it names, and the place right after
/// its `>`.
pub struct Header {
    pub path: Seq<u8>,
    pub body: int,
}

/// The name of the attribute that holds the path, with its `=`.
pub open spec fn path_name() -> Seq<u8> {
    text("path=")
}

/// The quoted value that starts at `mark` belongs to the attribute `path`:
/// `path=` stands right before the quote, after a byte that ends a name.
pub open spec fn names_path(s: Seq<u8>, mark: int) -> bool {
    let at = mark - path_name().len();
    &&& 1 <= at
    &&& matches_at(s, at, path_name())
    &&& is_boundary(s[at - 1])
}

/// What the rest of an opening tag gives, from `from` on, where `found` is
/// the path that the tag has named so far. The tag runs up to the first `>`
/// outside quotes. Of several attributes `path` the first one counts; a
/// tag without one names the empty path.
pub open spec fn header_from(s: Seq<u8>, from: int, found: Option<Seq<u8>>) -> Result<
    Header,
    ParseError,
>
    decreases s.len() - from,
{
    let mark = quote_or_end(s, from);
    if !(0 <= from <= mark < s.len()) {
        Err(ParseError::UnterminatedTag)
    } else if s[mark] == GREATER_THAN {
        Ok(
            Header {
                path: match found {
                    Some(path) => path,
                    None => Seq::empty(),
                },
                body: mark + 1,
            },
        )
    } else {
        let quote = find_byte(s, QUOTE, mark + 1);
        if !(mark < quote < s.len()) {
            Err(ParseError::UnterminatedTag)
        } else {
            header_from(
                s,
                quote + 1,
                if found.is_none() && names_path(s, mark) {
                    Some(s.subrange(mark + 1, quote))
                } else {
                    found
                },
            )
        }
    }
}

/// The element whose opening tag starts at `i`.
pub open spec fn block_at(s: Seq<u8>, i: int) -> Result<Block, ParseError> {
    match header_from(s, i + open_tag().len(), None) {
        Ok(header) => block_body(s, header.path, header.body),
        Err(e) => Err(e),
    }
}

/// The next element at or after `pos`, if there is one.
pub open spec fn step(s: Seq<u8>, pos: int) -> Result<Option<Block>, ParseError> {
    let at = next_tag(s, pos);
    if !(0 <= at < s.len()) {
        Ok(None)
    } else if closes_at(s, at) {
        Err(ParseError::UnexpectedClose)
    } else {
        match block_at(s, at) {
            Ok(block) => Ok(Some(block)),
            Err(e) => Err(e),
        }
    }
}

/// The files of the elements from `pos` on, up to the end of the text or
/// to what cannot be read. An element with an empty path gives no file.
pub open spec fn restored_files(s: Seq<u8>, pos: int) -> Seq<(Seq<u8>, Seq<u8>)>
    decreases s.len() - pos,
{
    match step(s, pos) {
        Ok(Some(block)) => if pos < block.next <= s.len() {
            let rest = restored_files(s, block.next);
            if block.path.len() > 0 {
                seq![(block.path, block.content)] + rest
            } else {
                rest
            }
        } else {
            Seq::empty()
        },
        _ => Seq::empty(),
    }
}

/// What stops the reading from `pos` on, if anything does.
pub open spec fn restore_error(s: Seq<u8>, pos: int) -> Option<ParseError>
    decreases s.len() - pos,
{
    match step(s, pos) {
        Ok(Some(block)) => if pos < block.next <= s.len() {
            restore_error(s, block.next)
        } else {
            None
        },
        Ok(None) => None,
        Err(e) => Some(e),
    }
}

/// The files of a list, each as its path and its contents.
pub open spec fn file_views(files: Seq<RestoredFile>) -> Seq<(Seq<u8>, Seq<u8>)> {
    Seq::new(files.len(), |i: int| (files[i].path@, files[i].content@))
}

/// A step agrees with the element that the text holds next.
pub open spec fn step_is(r: Result<Step, ParseError>, expected: Result<Option<Block>, ParseError>) -> bool {
    match (r, expected) {
        (Ok(Step::End), Ok(None)) => true,
        (Ok(Step::Skip { next }), Ok(Some(block))) => block.path.len() == 0 && next == block.next,
        (Ok(Step::File { file, next }), Ok(Some(block))) => {
            &&& block.path.len() > 0
            &&& file.path@ == block.path
            &&& file.content@ == block.content
            &&& next == block.next
        },
        (Err(e), Err(expected_e)) => e == expected_e,
        _ => false,
    }
}

/// An element ends after it starts, and inside the text.
pub proof fn lemma_block_advances(s: Seq<u8>, pos: int)
    requires
        0 <= pos <= s.len(),
    ensures
        step(s, pos) matches Ok(Some(block)) ==> pos < block.next <= s.len(),
{
    lemma_next_tag(s, pos);
    let at = next_tag(s, pos);
    if 0 <= at < s.len() && !closes_at(s, at) {
        let from = at + open_tag().len();
        lemma_header_advances(s, from, None);
        match header_from(s, from, None) {
            Ok(header) => lemma_body_advances(s, header.path, header.body),
            Err(_) => {},
        }
    }
}

/// An opening tag ends after it starts, and inside the text.
proof fn lemma_header_advances(s: Seq<u8>, from: int, found: Option<Seq<u8>>)
    ensures
        header_from(s, from, found) matches Ok(header) ==> from < header.body <= s.len(),
    decreases s.len() - from,
{
    let mark = quote_or_end(s, from);
    if 0 <= from <= mark < s.len() && s[mark] != GREATER_THAN {
        let quote = find_byte(s, QUOTE, mark + 1);
        if mark < quote < s.len() {
            lemma_header_advances(
                s,
                quote + 1,
                if found.is_none() && names_path(s, mark) {
                    Some(s.subrange(mark + 1, quote))
                } else {
                    found
                },
            );
        }
    }
}

proof fn lemma_body_advances(s: Seq<u8>, path: Seq<u8>, body: int)
    requires
        0 <= body <= s.len(),
    ensures
        block_body(s, path, body) matches Ok(block) ==> body <= block.next <= s.len(),
{
    let start = if 0 <= body < s.len() && s[body] == NEWLINE {
        body + 1
    } else {
        body
    };
    lemma_find(s, close_tag(), start);
}

/// What `find` returns is a match, and the first one.
pub proof fn lemma_find(s: Seq<u8>, pat: Seq<u8>, from: int)
    requires
        0 <= from <= s.len(),
    ensures
        from <= find(s, pat, from) <= s.len(),
        find(s, pat, from) < s.len() ==> matches_at(s, find(s, pat, from), pat),
        forall|k: int| from <= k < find(s, pat, from) ==> !matches_at(s, k, pat),
    decreases s.len() - from,
{
    if from < s.len() && from + pat.len() <= s.len() && !matches_at(s, from, pat) {
        lemma_find(s, pat, from + 1);
    }
}

/// Where `next_tag` points, a tag starts, and none starts before.
pub proof fn lemma_next_tag(s: Seq<u8>, from: int)
    requires
        0 <= from <= s.len(),
    ensures
        from <= next_tag(s, from) <= s.len(),
        next_tag(s, from) < s.len() ==> opens_at(s, next_tag(s, from)) || closes_at(
            s,
            next_tag(s, from),
        ),
        forall|k: int| from <= k < next_tag(s, from) ==> !opens_at(s, k) && !closes_at(s, k),
    decreases s.len() - from,
{
    if from < s.len() && !(opens_at(s, from) || closes_at(s, from)) {
        lemma_next_tag(s, from + 1);
    }
}

/// Where `quote_or_end` points, a quote or a `>` stands, and none before.
pub proof fn lemma_quote_or_end(s: Seq<u8>, from: int)
    requires
        0 <= from <= s.len(),
    ensures
        from <= quote_or_end(s, from) <= s.len(),
        quote_or_end(s, from) < s.len() ==> s[quote_or_end(s, from)] == QUOTE || s[quote_or_end(
            s,
            from,
        )] == GREATER_THAN,
        forall|k: int|
            from <= k < quote_or_end(s, from) ==> s[k] != QUOTE && s[k] != GREATER_THAN,
    decreases s.len() - from,
{
    if from < s.len() && !(s[from] == QUOTE || s[from] == GREATER_THAN) {
        lemma_quote_or_end(s, from + 1);
    }
}

fn is_boundary_byte(b: u8) -> (r: bool)
    ensures
        r == is_boundary(b),
{
    b == SPACE || b == GREATER_THAN || b == TAB || b == NEWLINE || b == CARRIAGE_RETURN
}

/// Whether an opening tag starts at `i`.
fn opens_here(s: &[u8], i: usize) -> (r: bool)
    ensures
        r == opens_at(s@, i as int),
{
    let tag = "<document".as_bytes();
    if !starts_with_at(s, i, tag) {
        return false;
    }
    let len = s.len();
    let after = i + tag.len();
    after < len && is_boundary_byte(s[after])
}

/// Finds the first tag at or after `from`.
fn find_tag(s: &[u8], from: usize) -> (r: usize)
    requires
        from <= s.len(),
    ensures
        r == next_tag(s@, from as int),
        from <= r <= s.len(),
{
    let mut i: usize = from;
    while i < s.len()
        invariant
            from <= i <= s.len(),
            next_tag(s@, from as int) == next_tag(s@, i as int),
        decreases s.len() - i,
    {
        if opens_here(s, i) || starts_with_at(s, i, "</document>".as_bytes()) {
            return i;
        }
        i += 1;
    }
    s.len()
}

/// Finds the first quote or `>` at or after `from`.
fn find_quote_or_end(s: &[u8], from: usize) -> (r: usize)
    requires
        from <= s.len(),
    ensures
        r == quote_or_end(s@, from as int),
        from <= r <= s.len(),
{
    let mut i: usize = from;
    while i < s.len()
        invariant
            from <= i <= s.len(),
            quote_or_end(s@, from as int) == quote_or_end(s@, i as int),
        decreases s.len() - i,
    {
        if s[i] == QUOTE || s[i] == GREATER_THAN {
            return i;
        }
        i += 1;
    }
    s.len()
}

/// Reads the contents of an element, from right after its opening tag.
fn read_body(input: &[u8], path: Vec<u8>, body: usize) -> (r: Result<Step, ParseError>)
    requires
        body <= input.len(),
    ensures
        step_is(
            r,
            match block_body(input@, path@, body as int) {
                Ok(block) => Ok(Some(block)),
                Err(e) => Err(e),
            },
        ),
{
    let mut start: usize = body;
    if body < input.len() && input[body] == NEWLINE {
        start = body + 1;
    }
    let tag = "</document>".as_bytes();
    let close = find_from(input, tag, start);
    if close >= input.len() {
        return Err(ParseError::UnclosedDocument);
    }
    let next = close + tag.len();
    if path.len() == 0 {
        Ok(Step::Skip { next })
    } else {
        let content = copy_range(input, start, close);
        Ok(Step::File { file: RestoredFile { path, content }, next })
    }
}

/// Reads the next element at or after `pos`: a file to write, an element
/// that names no file, or the end of the text. Fails where the text holds
/// a closing tag outside an element, an opening tag that is not ended, or
/// an element that is not closed.
pub fn next_record(input: &[u8], pos: usize) -> (r: Result<Step, ParseError>)
    ensures
        step_is(r, step(input@, pos as int)),
        r matches Ok(Step::File { file, next }) ==> pos < next <= input.len(),
        r matches Ok(Step::Skip { next }) ==> pos < next <= input.len(),
{
    if pos >= input.len() {
        return Ok(Step::End);
    }
    proof {
        lemma_block_advances(input@, pos as int);
    }
    let at = find_tag(input, pos);
    if at >= input.len() {
        return Ok(Step::End);
    }
    if starts_with_at(input, at, "</document>".as_bytes()) {
        return Err(ParseError::UnexpectedClose);
    }
    proof {
        lemma_next_tag(input@, pos as int);
    }
    let from = at + "<document".as_bytes().len();
    match read_header(input, from) {
        Ok((path, body)) => read_body(input, path, body),
        Err(e) => Err(e),
    }
}

/// Whether the quoted value that starts at `mark` belongs to the attribute
/// `path`.
fn path_named(s: &[u8], mark: usize) -> (r: bool)
    requires
        mark < s.len(),
    ensures
        r == names_path(s@, mark as int),
{
    let name = "path=".as_bytes();
    if mark <= name.len() {
        return false;
    }
    let at = mark - name.len();
    starts_with_at(s, at, name) && is_boundary_byte(s[at - 1])
}

/// Reads the rest of an opening tag: the path it names and the place
/// right after its `>`.
fn read_header(input: &[u8], from: usize) -> (r: Result<(Vec<u8>, usize), ParseError>)
    requires
        from <= input.len(),
    ensures
        match (r, header_from(input@, from as int, None)) {
            (Ok((path, body)), Ok(header)) => path@ == header.path && body == header.body
                && body <= input.len(),
            (Err(e), Err(expected)) => e == expected,
            _ => false,
        },
{
    let mut pos: usize = from;
    let mut path: Vec<u8> = Vec::new();
    let mut named = false;
    loop
        invariant
            pos <= input.len(),
            !named ==> path@ == Seq::<u8>::empty(),
            header_from(
                input@,
                pos as int,
                if named {
                    Some(path@)
                } else {
                    None
                },
            ) == header_from(input@, from as int, None),
        decreases input.len() - pos,
    {
        let mark = find_quote_or_end(input, pos);
        if mark >= input.len() {
            return Err(ParseError::UnterminatedTag);
        }
        if input[mark] == GREATER_THAN {
            return Ok((path, mark + 1));
        }
        let quote = find_byte_from(input, QUOTE, mark + 1);
        if quote >= input.len() {
            return Err(ParseError::UnterminatedTag);
        }
        if !named && path_named(input, mark) {
            path = copy_range(input, mark + 1, quote);
            named = true;
        }
        pos = quote + 1;
    }
}

/// Reads a whole document: the files of its elements in their order, up
/// to the end of the text or to the first thing that cannot be read. The
/// files before that are still returned.
pub fn restore(input: &[u8]) -> (r: Restored)
    ensures
        file_views(r.files@) == restored_files(input@, 0),
        r.error == restore_error(input@, 0),
{
    let mut files: Vec<RestoredFile> = Vec::new();
    let mut pos: usize = 0;
    let mut error: Option<ParseError> = None;
    assert(file_views(files@) =~= Seq::<(Seq<u8>, Seq<u8>)>::empty());
    loop
        invariant_except_break
            error.is_none(),
        invariant
            pos <= input.len(),
            file_views(files@) + restored_files(input@, pos as int) == restored_files(input@, 0),
            restore_error(input@, pos as int) == restore_error(input@, 0),
        ensures
            file_views(files@) == restored_files(input@, 0),
            error == restore_error(input@, 0),
        decreases input.len() - pos,
    {
        let ghost before = file_views(files@);
        match next_record(input, pos) {
            Ok(Step::File { file, next }) => {
                let ghost entry = (file.path@, file.content@);
                files.push(file);
                proof {
                    let rest = restored_files(input@, next as int);
                    assert(file_views(files@) =~= before + seq![entry]);
                    assert((before + seq![entry]) + rest =~= before + (seq![entry] + rest));
                }
                pos = next;
            },
            Ok(Step::Skip { next }) => {
                pos = next;
            },
            Ok(Step::End) => {
                assert(before + Seq::<(Seq<u8>, Seq<u8>)>::empty() =~= before);
                break ;
            },
            Err(e) => {
                assert(before + Seq::<(Seq<u8>, Seq<u8>)>::empty() =~= before);
                error = Some(e);
                break ;
            },
        }
    }
    Restored { files, error }
}

/// The directory under which files are written where none is given: the
/// current one.
pub open spec fn base_directory(output: Option<Seq<u8>>) -> Seq<u8> {
    match output {
        Some(base) => base,
        None => text("./"),
    }
}

/// Where a file of a document is written: its path joined to the base
/// directory. A path that starts at the root stands for itself.
pub open spec fn joined(base: Seq<u8>, path: Seq<u8>) -> Seq<u8> {
    if path.len() > 0 && path[0] == SLASH {
        path
    } else if base.len() == 0 || base.last() == SLASH {
        base + path
    } else {
        base + seq![SLASH] + path
    }
}

/// The place on disk of a restored file, under the directory given or
/// under the current one.
pub fn target_path(output: Option<&[u8]>, path: &[u8]) -> (r: Vec<u8>)
    ensures
        r@ == joined(
            base_directory(
                match output {
                    Some(base) => Some(base@),
                    None => None,
                },
            ),
            path@,
        ),
{
    let mut out: Vec<u8> = Vec::new();
    if path.len() > 0 && path[0] == SLASH {
        append(&mut out, path);
        assert(out@ =~= path@);
        return out;
    }
    match output {
        Some(base) => append(&mut out, base),
        None => append(&mut out, "./".as_bytes()),
    }
    let ghost base = out@;
    assert(base =~= base_directory(
        match output {
            Some(b) => Some(b@),
            None => None,
        },
    ));
    if out.len() > 0 && out[out.len() - 1] != SLASH {
        out.push(SLASH);
    }
    append(&mut out, path);
    assert(out@ =~= joined(base, path@));
    out
}

} // verus!
