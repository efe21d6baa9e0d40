//! Writing files as `<document>` elements and reading them back.

use vstd::prelude::*;
use vstd::utf8::valid_utf8;
use crate::bytes::{find, find_byte, free_of, matches_at, text};
use crate::json::QUOTE;
use crate::render::{document, pieces, record, FileContent, Format, PrintFileOptions};
use crate::restore::{block_at, close_tag, closes_at, header_from, names_path, next_tag, open_tag, opens_at, path_name, quote_or_end, restore_error, restored_files, step, Block, Header, ParseError, GREATER_THAN};

verus! {

pub const LESS_THAN: u8 = 0x3c;

/// The text `pat` occurs nowhere in `s`.
pub open spec fn free_of_text(s: Seq<u8>, pat: Seq<u8>) -> bool {
    forall|i: int| !matches_at(s, i, pat)
}

/// A file that can be written as an element and read back: its path is not
/// empty and holds no quote, and its contents are text that does not hold
/// the closing tag.
pub open spec fn restorable(path: Seq<u8>, content: Seq<u8>) -> bool {
    &&& path.len() > 0
    &&& free_of(path, QUOTE)
    &&& valid_utf8(content)
    &&& free_of_text(content, close_tag())
}

/// The options under which a document can be read back.
pub open spec fn as_elements() -> PrintFileOptions {
    PrintFileOptions { line_numbers: false, format: Format::Cxml }
}

/// The element of one file.
pub open spec fn element(path: Seq<u8>, content: Seq<u8>) -> Seq<u8> {
    record(path, content, as_elements(), false)
}

/// The bytes of the start of an opening tag.
proof fn lemma_open_tag_bytes()
    ensures
        text("<document") == seq![60u8, 100, 111, 99, 117, 109, 101, 110, 116],
{
    reveal_strlit("<document");
    let s = "<document";
    assert(vstd::string::is_ascii(s));
    vstd::utf8::is_ascii_chars_encode_utf8(s@);
    assert(text(s) =~= seq![60u8, 100, 111, 99, 117, 109, 101, 110, 116]);
}

/// The bytes of the closing tag.
proof fn lemma_close_tag_bytes()
    ensures
        text("</document>") == seq![60u8, 47, 100, 111, 99, 117, 109, 101, 110, 116, 62],
{
    reveal_strlit("</document>");
    let s = "</document>";
    assert(vstd::string::is_ascii(s));
    vstd::utf8::is_ascii_chars_encode_utf8(s@);
    assert(text(s) =~= seq![60u8, 47, 100, 111, 99, 117, 109, 101, 110, 116, 62]);
}

/// The bytes of what stands before the path in an element.
proof fn lemma_element_head_bytes()
    ensures
        text("<document path=\"") == seq![60u8, 100, 111, 99, 117, 109, 101, 110, 116, 32, 112, 97, 116, 104, 61, 34],
{
    reveal_strlit("<document path=\"");
    let s = "<document path=\"";
    assert(vstd::string::is_ascii(s));
    vstd::utf8::is_ascii_chars_encode_utf8(s@);
    assert(text(s) =~= seq![60u8, 100, 111, 99, 117, 109, 101, 110, 116, 32, 112, 97, 116, 104, 61, 34]);
}

/// The bytes of what stands between the path and the contents of an element.
proof fn lemma_element_middle_bytes()
    ensures
        text("\">\n") == seq![34u8, 62, 10],
{
    reveal_strlit("\">\n");
    let s = "\">\n";
    assert(vstd::string::is_ascii(s));
    vstd::utf8::is_ascii_chars_encode_utf8(s@);
    assert(text(s) =~= seq![34u8, 62, 10]);
}

/// The bytes of what stands after the contents of an element.
proof fn lemma_element_tail_bytes()
    ensures
        text("</document>\n") == seq![60u8, 47, 100, 111, 99, 117, 109, 101, 110, 116, 62, 10],
{
    reveal_strlit("</document>\n");
    let s = "</document>\n";
    assert(vstd::string::is_ascii(s));
    vstd::utf8::is_ascii_chars_encode_utf8(s@);
    assert(text(s) =~= seq![60u8, 47, 100, 111, 99, 117, 109, 101, 110, 116, 62, 10]);
}

/// The bytes of what opens a document.
proof fn lemma_opening_bytes()
    ensures
        text("<documents>\n") == seq![60u8, 100, 111, 99, 117, 109, 101, 110, 116, 115, 62, 10],
{
    reveal_strlit("<documents>\n");
    let s = "<documents>\n";
    assert(vstd::string::is_ascii(s));
    vstd::utf8::is_ascii_chars_encode_utf8(s@);
    assert(text(s) =~= seq![60u8, 100, 111, 99, 117, 109, 101, 110, 116, 115, 62, 10]);
}

/// The bytes of what closes a document.
proof fn lemma_closing_bytes()
    ensures
        text("</documents>\n") == seq![60u8, 47, 100, 111, 99, 117, 109, 101, 110, 116, 115, 62, 10],
{
    reveal_strlit("</documents>\n");
    let s = "</documents>\n";
    assert(vstd::string::is_ascii(s));
    vstd::utf8::is_ascii_chars_encode_utf8(s@);
    assert(text(s) =~= seq![60u8, 47, 100, 111, 99, 117, 109, 101, 110, 116, 115, 62, 10]);
}

/// The bytes of the line that stands for an empty collection.
proof fn lemma_no_files_bytes()
    ensures
        text("No files found.\n") == seq![78u8, 111, 32, 102, 105, 108, 101, 115, 32, 102, 111, 117, 110, 100, 46, 10],
{
    reveal_strlit("No files found.\n");
    let s = "No files found.\n";
    assert(vstd::string::is_ascii(s));
    vstd::utf8::is_ascii_chars_encode_utf8(s@);
    assert(text(s) =~= seq![78u8, 111, 32, 102, 105, 108, 101, 115, 32, 102, 111, 117, 110, 100, 46, 10]);
}
/// A tag starts with `<`.
proof fn lemma_tag_starts_with_less_than(s: Seq<u8>, i: int)
    requires
        0 <= i < s.len(),
        s[i] != LESS_THAN,
    ensures
        !opens_at(s, i),
        !closes_at(s, i),
{
    lemma_open_tag_bytes();
    lemma_close_tag_bytes();
    if matches_at(s, i, open_tag()) {
        assert(s.subrange(i, i + open_tag().len())[0] == open_tag()[0]);
    }
    if matches_at(s, i, close_tag()) {
        assert(s.subrange(i, i + close_tag().len())[0] == close_tag()[0]);
    }
}

/// The first tag from `from` on starts at `at`, where none starts before.
proof fn lemma_next_tag_is(s: Seq<u8>, from: int, at: int)
    requires
        0 <= from <= at <= s.len(),
        forall|j: int| from <= j < at ==> !opens_at(s, j) && !closes_at(s, j),
        at < s.len() ==> opens_at(s, at) || closes_at(s, at),
    ensures
        next_tag(s, from) == at,
    decreases at - from,
{
    if from < at {
        lemma_next_tag_is(s, from + 1, at);
    }
}

/// The first quote or `>` from `from` on stands at `at`, where none stands
/// before.
proof fn lemma_quote_or_end_is(s: Seq<u8>, from: int, at: int)
    requires
        0 <= from <= at < s.len(),
        forall|j: int| from <= j < at ==> s[j] != QUOTE && s[j] != GREATER_THAN,
        s[at] == QUOTE || s[at] == GREATER_THAN,
    ensures
        quote_or_end(s, from) == at,
    decreases at - from,
{
    if from < at {
        lemma_quote_or_end_is(s, from + 1, at);
    }
}

/// The first `b` from `from` on stands at `at`, where none stands before.
proof fn lemma_find_byte_is(s: Seq<u8>, b: u8, from: int, at: int)
    requires
        0 <= from <= at < s.len(),
        forall|j: int| from <= j < at ==> s[j] != b,
        s[at] == b,
    ensures
        find_byte(s, b, from) == at,
    decreases at - from,
{
    if from < at {
        lemma_find_byte_is(s, b, from + 1, at);
    }
}

/// The first `pat` from `from` on stands at `at`, where none stands before.
proof fn lemma_find_is(s: Seq<u8>, pat: Seq<u8>, from: int, at: int)
    requires
        0 <= from <= at < s.len(),
        forall|j: int| from <= j < at ==> !matches_at(s, j, pat),
        matches_at(s, at, pat),
    ensures
        find(s, pat, from) == at,
    decreases at - from,
{
    if from < at {
        lemma_find_is(s, pat, from + 1, at);
    }
}

/// The bytes of the name of the attribute that holds the path.
proof fn lemma_path_name_bytes()
    ensures
        text("path=") == seq![112u8, 97, 116, 104, 61],
{
    reveal_strlit("path=");
    let s = "path=";
    assert(vstd::string::is_ascii(s));
    vstd::utf8::is_ascii_chars_encode_utf8(s@);
    assert(text(s) =~= seq![112u8, 97, 116, 104, 61]);
}

/// Reading the opening tag of an element gives back the path it was
/// written with, and ends right after the tag's `>`.
proof fn lemma_header_read(s: Seq<u8>, at: int, path: Seq<u8>)
    requires
        0 <= at,
        at + 18 + path.len() <= s.len(),
        forall|j: int| 0 <= j < 16 ==> s[at + j] == #[trigger] text("<document path=\"")[j],
        forall|j: int| 0 <= j < path.len() ==> s[at + 16 + j] == #[trigger] path[j],
        s[at + 16 + path.len()] == QUOTE,
        s[at + 17 + path.len()] == GREATER_THAN,
        free_of(path, QUOTE),
    ensures
        header_from(s, at + 9, None) == Ok::<Header, ParseError>(
            Header { path, body: at + 18 + path.len() },
        ),
{
    lemma_element_head_bytes();
    lemma_path_name_bytes();
    let head = text("<document path=\"");
    let p = path.len() as int;
    let mark = at + 15;
    let quote = at + 16 + p;
    assert forall|j: int| at + 9 <= j < mark implies s[j] != QUOTE && s[j] != GREATER_THAN by {
        assert(s[at + (j - at)] == head[j - at]);
    }
    assert(s[at + 15] == head[15]);
    lemma_quote_or_end_is(s, at + 9, mark);
    assert(names_path(s, mark)) by {
        assert(s.subrange(at + 10, at + 15) =~= path_name()) by {
            assert forall|j: int| 0 <= j < 5 implies s.subrange(at + 10, at + 15)[j]
                == path_name()[j] by {
                assert(s[at + (10 + j)] == head[10 + j]);
            }
        }
        assert(s[at + 9] == head[9]);
    }
    assert forall|j: int| mark + 1 <= j < quote implies s[j] != QUOTE by {
        assert(s[at + 16 + (j - at - 16)] == path[j - at - 16]);
    }
    lemma_find_byte_is(s, QUOTE, mark + 1, quote);
    assert(s.subrange(mark + 1, quote) =~= path) by {
        assert forall|j: int| 0 <= j < p implies s.subrange(mark + 1, quote)[j] == path[j] by {
            assert(s[at + 16 + j] == path[j]);
        }
    }
    lemma_quote_or_end_is(s, quote + 1, quote + 1);
    let rest = header_from(s, quote + 1, Some(path));
    assert(rest == Ok::<Header, ParseError>(Header { path, body: quote + 2 }));
    assert(header_from(s, at + 9, None) == rest);
}

/// Reading an element gives back the path and the contents it was written
/// from, and ends on the newline that ends the element.
proof fn lemma_element_read(s: Seq<u8>, at: int, path: Seq<u8>, content: Seq<u8>)
    requires
        0 <= at,
        at + element(path, content).len() <= s.len(),
        s.subrange(at, at + element(path, content).len()) == element(path, content),
        path.len() > 0,
        free_of(path, QUOTE),
        free_of_text(content, close_tag()),
    ensures
        opens_at(s, at),
        !closes_at(s, at),
        block_at(s, at) == Ok::<Block, ParseError>(
            Block { path, content, next: at + element(path, content).len() - 1 },
        ),
{
    lemma_open_tag_bytes();
    lemma_close_tag_bytes();
    lemma_element_head_bytes();
    lemma_element_middle_bytes();
    lemma_element_tail_bytes();
    let head = text("<document path=\"");
    let middle = text("\">\n");
    let tail = text("</document>\n");
    let whole = element(path, content);
    assert(whole == head + path + middle + content + tail);
    let p = path.len() as int;
    let c = content.len() as int;
    assert(whole.len() == 16 + p + 3 + c + 12);
    assert forall|j: int| 0 <= j < whole.len() implies s[at + j] == #[trigger] whole[j] by {
        assert(s.subrange(at, at + whole.len())[j] == s[at + j]);
    }
    // The opening tag.
    assert(s.subrange(at, at + 9) =~= open_tag()) by {
        assert forall|j: int| 0 <= j < 9 implies s.subrange(at, at + 9)[j] == open_tag()[j] by {
            assert(s[at + j] == whole[j]);
        }
    }
    assert(s[at + 9] == whole[9]);
    assert(opens_at(s, at));
    assert(!closes_at(s, at)) by {
        if matches_at(s, at, close_tag()) {
            assert(s.subrange(at, at + close_tag().len())[1] == close_tag()[1]);
            assert(s[at + 1] == whole[1]);
        }
    }
    // The path between its quotes.
    let quote = at + 16 + p;
    assert forall|j: int| 0 <= j < 16 implies s[at + j] == head[j] by {
        assert(s[at + j] == whole[j]);
    }
    assert forall|j: int| 0 <= j < p implies s[at + 16 + j] == path[j] by {
        assert(s[at + (16 + j)] == whole[16 + j]);
    }
    assert(s[at + (16 + p)] == whole[16 + p]);
    assert(whole[16 + p] == middle[0]);
    assert(s[at + (17 + p)] == whole[17 + p]);
    assert(whole[17 + p] == middle[1]);
    lemma_header_read(s, at, path);
    // The contents up to the closing tag.
    let body = quote + 2;
    assert(s[at + (18 + p)] == whole[18 + p]);
    assert(whole[18 + p] == middle[2]);
    let start = body + 1;
    let close = start + c;
    assert forall|j: int| 0 <= j < 12 implies s[close + j] == tail[j] by {
        assert(s[at + (19 + p + c + j)] == whole[19 + p + c + j]);
        assert(whole[19 + p + c + j] == tail[j]);
    }
    assert(s.subrange(close, close + 11) =~= close_tag()) by {
        assert forall|j: int| 0 <= j < 11 implies s.subrange(close, close + 11)[j] == close_tag()[j] by {
            assert(s[close + j] == tail[j]);
        }
    }
    assert(matches_at(s, close, close_tag()));
    assert(s.subrange(start, close) =~= content) by {
        assert forall|j: int| 0 <= j < c implies s.subrange(start, close)[j] == content[j] by {
            assert(s[at + (19 + p + j)] == whole[19 + p + j]);
            assert(whole[19 + p + j] == content[j]);
        }
    }
    assert forall|k: int| start <= k < close implies !matches_at(s, k, close_tag()) by {
        if matches_at(s, k, close_tag()) {
            let found = s.subrange(k, k + 11);
            if k + 11 <= close {
                assert(content.subrange(k - start, k - start + 11) =~= found) by {
                    assert forall|j: int| 0 <= j < 11 implies content.subrange(
                        k - start,
                        k - start + 11,
                    )[j] == found[j] by {
                        assert(s.subrange(start, close)[k - start + j] == s[k + j]);
                    }
                }
                assert(matches_at(content, k - start, close_tag()));
            } else {
                let m = close - k;
                assert(found[m] == s[close + 0]);
                assert(found[m] == close_tag()[m]);
            }
        }
    }
    lemma_find_is(s, close_tag(), start, close);
}

/// The bytes that reading a file gave; none where it gave none.
pub open spec fn bytes_of(content: FileContent) -> Seq<u8> {
    match content {
        FileContent::Bytes(bytes) => bytes@,
        FileContent::Unreadable => Seq::empty(),
    }
}

/// Every file was read and can be written as an element and read back.
pub open spec fn all_restorable(paths: Seq<Seq<u8>>, contents: Seq<FileContent>) -> bool {
    &&& paths.len() == contents.len()
    &&& forall|i: int|
        0 <= i < paths.len() ==> contents[i] is Bytes && restorable(
            #[trigger] paths[i],
            bytes_of(contents[i]),
        )
}

/// The files as reading a document gives them: each path with its contents.
pub open spec fn files_of(paths: Seq<Seq<u8>>, contents: Seq<FileContent>) -> Seq<
    (Seq<u8>, Seq<u8>),
> {
    Seq::new(paths.len(), |i: int| (paths[i], bytes_of(contents[i])))
}

/// The document that is read back.
pub open spec fn elements_document(paths: Seq<Seq<u8>>, contents: Seq<FileContent>) -> Seq<u8> {
    document(paths, contents, as_elements())
}

/// What the first `count` files add to the document.
spec fn elements(paths: Seq<Seq<u8>>, contents: Seq<FileContent>, count: int) -> Seq<u8> {
    pieces(paths, contents, as_elements(), count)
}

/// Where reading goes on once the first `count` files are read: at the
/// start for none, else on the newline that ends the last element read.
spec fn resume(paths: Seq<Seq<u8>>, contents: Seq<FileContent>, count: int) -> int {
    if count <= 0 {
        0
    } else {
        text("<documents>\n").len() + elements(paths, contents, count).len() - 1
    }
}

/// Each file adds its element.
proof fn lemma_elements_step(paths: Seq<Seq<u8>>, contents: Seq<FileContent>, k: int)
    requires
        all_restorable(paths, contents),
        0 <= k < paths.len(),
    ensures
        elements(paths, contents, k + 1) == elements(paths, contents, k) + element(
            paths[k],
            bytes_of(contents[k]),
        ),
{
    assert(restorable(paths[k], bytes_of(contents[k])));
}

/// What the first files add stands at the start of what more files add.
proof fn lemma_elements_prefix(paths: Seq<Seq<u8>>, contents: Seq<FileContent>, k: int, m: int)
    requires
        all_restorable(paths, contents),
        0 <= k <= m <= paths.len(),
    ensures
        elements(paths, contents, k).len() <= elements(paths, contents, m).len(),
        elements(paths, contents, m).subrange(0, elements(paths, contents, k).len() as int)
            == elements(paths, contents, k),
    decreases m - k,
{
    let short = elements(paths, contents, k);
    if k == m {
        assert(short.subrange(0, short.len() as int) =~= short);
    } else {
        lemma_elements_prefix(paths, contents, k, m - 1);
        lemma_elements_step(paths, contents, m - 1);
        let less = elements(paths, contents, m - 1);
        let more = elements(paths, contents, m);
        assert(more.subrange(0, short.len() as int) =~= less.subrange(0, short.len() as int));
    }
}

/// The document holds the element of each file in its place.
proof fn lemma_document_holds(paths: Seq<Seq<u8>>, contents: Seq<FileContent>, k: int)
    requires
        all_restorable(paths, contents),
        0 <= k < paths.len(),
    ensures
        ({
            let whole = elements_document(paths, contents);
            let at = (text("<documents>\n").len() + elements(paths, contents, k).len()) as int;
            let e = element(paths[k], bytes_of(contents[k]));
            &&& at + e.len() + text("</documents>\n").len() <= whole.len()
            &&& whole.subrange(at, at + e.len()) == e
            &&& at + e.len() - 1 == resume(paths, contents, k + 1)
            &&& e.len() > 1
        }),
{
    let n = paths.len() as int;
    let whole = elements_document(paths, contents);
    let head = text("<documents>\n");
    let all = elements(paths, contents, n);
    let before = elements(paths, contents, k);
    let upto = elements(paths, contents, k + 1);
    let e = element(paths[k], bytes_of(contents[k]));
    lemma_elements_step(paths, contents, k);
    lemma_elements_prefix(paths, contents, k + 1, n);
    assert(whole == head + all + text("</documents>\n"));
    let at = (head.len() + before.len()) as int;
    assert(upto.len() == before.len() + e.len());
    assert(whole.subrange(at, at + e.len()) =~= e) by {
        assert forall|j: int| 0 <= j < e.len() implies whole.subrange(at, at + e.len())[j]
            == e[j] by {
            assert(all.subrange(0, upto.len() as int)[before.len() + j] == all[before.len() + j]);
            assert(upto[before.len() + j] == e[j]);
        }
    }
    lemma_element_tail_bytes();
    lemma_element_head_bytes();
    lemma_element_middle_bytes();
}

/// Where reading resumes after a file, no tag starts: a newline stands
/// there.
proof fn lemma_resume_no_tag(paths: Seq<Seq<u8>>, contents: Seq<FileContent>, k: int)
    requires
        all_restorable(paths, contents),
        0 < k <= paths.len(),
    ensures
        0 <= resume(paths, contents, k) < elements_document(paths, contents).len(),
        resume(paths, contents, k) + 1 == text("<documents>\n").len() + elements(
            paths,
            contents,
            k,
        ).len(),
        !opens_at(elements_document(paths, contents), resume(paths, contents, k)),
        !closes_at(elements_document(paths, contents), resume(paths, contents, k)),
{
    let whole = elements_document(paths, contents);
    let from = resume(paths, contents, k);
    lemma_document_holds(paths, contents, k - 1);
    let e = element(paths[k - 1], bytes_of(contents[k - 1]));
    let at = (text("<documents>\n").len() + elements(paths, contents, k - 1).len()) as int;
    assert(e.len() > 0 && e[e.len() - 1] != LESS_THAN) by {
        lemma_element_tail_bytes();
        let tail = text("</document>\n");
        assert(e[e.len() - 1] == tail[11]);
    }
    assert(whole.subrange(at, at + e.len())[e.len() - 1] == whole[from]);
    lemma_tag_starts_with_less_than(whole, from);
}

/// No tag starts in what opens a document.
proof fn lemma_opening_no_tag(paths: Seq<Seq<u8>>, contents: Seq<FileContent>)
    requires
        all_restorable(paths, contents),
        0 < paths.len(),
    ensures
        forall|j: int|
            0 <= j < text("<documents>\n").len() ==> !opens_at(
                elements_document(paths, contents),
                j,
            ) && !closes_at(elements_document(paths, contents), j),
{
    let whole = elements_document(paths, contents);
    let head = text("<documents>\n");
    lemma_opening_bytes();
    lemma_open_tag_bytes();
    lemma_close_tag_bytes();
    assert forall|j: int| 0 <= j < head.len() implies !opens_at(whole, j) && !closes_at(
        whole,
        j,
    ) by {
        assert(whole[j] == head[j]);
        if j == 0 {
            assert(whole[9] == head[9]);
            if matches_at(whole, j, close_tag()) {
                assert(whole.subrange(j, j + close_tag().len())[1] == close_tag()[1]);
                assert(whole[1] == head[1]);
            }
        } else {
            lemma_tag_starts_with_less_than(whole, j);
        }
    }
}

/// No tag starts in what closes a document.
proof fn lemma_closing_no_tag(paths: Seq<Seq<u8>>, contents: Seq<FileContent>)
    requires
        all_restorable(paths, contents),
        0 < paths.len(),
    ensures
        forall|j: int|
            text("<documents>\n").len() + elements(paths, contents, paths.len() as int).len() <= j
                < elements_document(paths, contents).len() ==> !opens_at(
                elements_document(paths, contents),
                j,
            ) && !closes_at(elements_document(paths, contents), j),
{
    let whole = elements_document(paths, contents);
    let head = text("<documents>\n");
    let foot = text("</documents>\n");
    let all = elements(paths, contents, paths.len() as int);
    let end = (head.len() + all.len()) as int;
    lemma_closing_bytes();
    lemma_open_tag_bytes();
    lemma_close_tag_bytes();
    assert(whole == head + all + foot);
    assert forall|j: int| 0 <= j < 13 implies whole[end + j] == foot[j] by {}
    assert forall|j: int| end <= j < whole.len() implies !opens_at(whole, j) && !closes_at(
        whole,
        j,
    ) by {
        if j == end {
            if matches_at(whole, j, open_tag()) {
                assert(whole.subrange(j, j + open_tag().len())[1] == open_tag()[1]);
                assert(whole[end + 1] == foot[1]);
            }
            if matches_at(whole, j, close_tag()) {
                assert(whole.subrange(j, j + close_tag().len())[10] == close_tag()[10]);
                assert(whole[end + 10] == foot[10]);
            }
        } else {
            assert(whole[end + (j - end)] == foot[j - end]);
            lemma_tag_starts_with_less_than(whole, j);
        }
    }
}

/// Reading comes to its end where no tag starts any more.
proof fn lemma_read_end(s: Seq<u8>, from: int)
    requires
        0 <= from <= s.len(),
        forall|j: int| from <= j < s.len() ==> !opens_at(s, j) && !closes_at(s, j),
    ensures
        restored_files(s, from) == Seq::<(Seq<u8>, Seq<u8>)>::empty(),
        restore_error(s, from) == None::<ParseError>,
{
    lemma_next_tag_is(s, from, s.len() as int);
}

/// Reading an element gives its file, then what the rest of the text
/// gives.
proof fn lemma_read_file(s: Seq<u8>, from: int, at: int, block: Block)
    requires
        0 <= from <= at < s.len(),
        forall|j: int| from <= j < at ==> !opens_at(s, j) && !closes_at(s, j),
        opens_at(s, at),
        !closes_at(s, at),
        block_at(s, at) == Ok::<Block, ParseError>(block),
        from < block.next <= s.len(),
        block.path.len() > 0,
    ensures
        restored_files(s, from) == seq![(block.path, block.content)] + restored_files(
            s,
            block.next,
        ),
        restore_error(s, from) == restore_error(s, block.next),
{
    lemma_next_tag_is(s, from, at);
    assert(step(s, from) == Ok::<Option<Block>, ParseError>(Some(block)));
}

/// No tag starts between the place where reading resumes and the next
/// element, and none after the last element.
proof fn lemma_between_elements(paths: Seq<Seq<u8>>, contents: Seq<FileContent>, k: int)
    requires
        all_restorable(paths, contents),
        0 < paths.len(),
        0 <= k <= paths.len(),
    ensures
        ({
            let whole = elements_document(paths, contents);
            let from = resume(paths, contents, k);
            let at = text("<documents>\n").len() + elements(paths, contents, k).len();
            &&& 0 <= from <= at <= whole.len()
            &&& k < paths.len() ==> at < whole.len()
            &&& forall|j: int| from <= j < at ==> !opens_at(whole, j) && !closes_at(whole, j)
            &&& k == paths.len() ==> forall|j: int|
                from <= j < whole.len() ==> !opens_at(whole, j) && !closes_at(whole, j)
        }),
{
    let n = paths.len() as int;
    lemma_elements_prefix(paths, contents, k, n);
    if k == 0 {
        lemma_opening_no_tag(paths, contents);
    } else {
        lemma_resume_no_tag(paths, contents, k);
    }
    if k == n {
        lemma_closing_no_tag(paths, contents);
    } else {
        lemma_document_holds(paths, contents, k);
    }
}

/// Reading a document from where the first `k` files are read gives the
/// other files, and comes to the end of the text.
proof fn lemma_read_from(paths: Seq<Seq<u8>>, contents: Seq<FileContent>, k: int)
    requires
        all_restorable(paths, contents),
        0 < paths.len(),
        0 <= k <= paths.len(),
    ensures
        restored_files(elements_document(paths, contents), resume(paths, contents, k))
            == files_of(paths, contents).skip(k),
        restore_error(elements_document(paths, contents), resume(paths, contents, k)) == None::<
            ParseError,
        >,
    decreases paths.len() - k,
{
    let whole = elements_document(paths, contents);
    let from = resume(paths, contents, k);
    let files = files_of(paths, contents);
    lemma_between_elements(paths, contents, k);
    if k == paths.len() {
        lemma_read_end(whole, from);
        assert(files.skip(k) =~= Seq::<(Seq<u8>, Seq<u8>)>::empty());
    } else {
        let at = (text("<documents>\n").len() + elements(paths, contents, k).len()) as int;
        let path = paths[k];
        let content = bytes_of(contents[k]);
        assert(restorable(path, content));
        lemma_document_holds(paths, contents, k);
        lemma_element_read(whole, at, path, content);
        let next = resume(paths, contents, k + 1);
        lemma_read_file(whole, from, at, Block { path, content, next });
        lemma_read_from(paths, contents, k + 1);
        assert(files.skip(k) =~= seq![(path, content)] + files.skip(k + 1));
    }
}

/// Writing files as elements and reading the document back gives the same
/// files: the same paths with the same contents, in the same order, and
/// nothing stops the reading. This holds for files that were read, whose
/// paths are not empty and hold no quote, and whose contents are text that
/// does not hold the closing tag, written without line numbers.
pub proof fn lemma_round_trip(paths: Seq<Seq<u8>>, contents: Seq<FileContent>)
    requires
        all_restorable(paths, contents),
    ensures
        restored_files(elements_document(paths, contents), 0) == files_of(paths, contents),
        restore_error(elements_document(paths, contents), 0) == None::<
            ParseError,
        >,
{
    let whole = elements_document(paths, contents);
    let files = files_of(paths, contents);
    if paths.len() == 0 {
        lemma_no_files_bytes();
        assert forall|j: int| 0 <= j < whole.len() implies !opens_at(whole, j) && !closes_at(
            whole,
            j,
        ) by {
            lemma_tag_starts_with_less_than(whole, j);
        }
        lemma_read_end(whole, 0);
        assert(files =~= Seq::<(Seq<u8>, Seq<u8>)>::empty());
    } else {
        lemma_read_from(paths, contents, 0);
        assert(files.skip(0) =~= files);
    }
}

/// Contents that hold no `<` do not hold the closing tag.
pub proof fn lemma_markup_free(content: Seq<u8>)
    requires
        free_of(content, LESS_THAN),
    ensures
        free_of_text(content, close_tag()),
{
    lemma_close_tag_bytes();
    assert forall|i: int| !matches_at(content, i, close_tag()) by {
        if matches_at(content, i, close_tag()) {
            assert(content.subrange(i, i + close_tag().len())[0] == close_tag()[0]);
        }
    }
}

} // verus!
