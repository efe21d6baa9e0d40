//! The document: every collected file as one record, in one of four
//! formats.

use vstd::prelude::*;
use vstd::utf8::valid_utf8;
use crate::bytes::{append, append_text, text};
use crate::collection::{lemma_order_determined, sorted, FileCollection};
use crate::json::{append_json_string, json_string};
use crate::language::{markdown_language, path_to_markdown_language};
use crate::lines::{append_numbered, numbered};

verus! {

/// The format of the document.
#[derive(Clone, Copy, Debug, PartialEq, Eq, Structural)]
pub enum Format {
    /// Path, a line of dashes, the contents, a line of dashes.
    Plain,
    /// Path, then the contents in a fenced code block.
    Markdown,
    /// `<document>` elements inside one `<documents>` element.
    Cxml,
    /// One JSON object with the files under `files`, keyed by path.
    Json,
}

/// How files are printed.
#[derive(Clone, Copy, Debug, PartialEq, Eq, Structural)]
pub struct PrintFileOptions {
    /// Each line of the contents is preceded by its number.
    pub line_numbers: bool,
    pub format: Format,
}

/// What reading a file gave.
pub enum FileContent {
    /// The file could not be read.
    Unreadable,
    /// The bytes of the file.
    Bytes(Vec<u8>),
}

/// Why a file has no record in the document.
#[derive(Clone, Copy, Debug, PartialEq, Eq, Structural)]
pub enum Skip {
    /// The file could not be read.
    Unreadable,
    /// The file's bytes are not UTF-8 text.
    NotText,
}

/// A document, and the files that are not in it.
pub struct Printed {
    pub output: Vec<u8>,
    /// The place in the collection of each file that was passed over, in
    /// ascending order, and why it was.
    pub skipped: Vec<(usize, Skip)>,
}

/// Calls `core::str::from_utf8` and tells whether it succeeded, which it
/// does exactly on well-formed UTF-8.
#[verifier::external_body]
fn is_utf8(bytes: &[u8]) -> (r: bool)
    ensures
        r == valid_utf8(bytes@),
{
    core::str::from_utf8(bytes).is_ok()
}

impl Format {
    /// The format that the three selectors choose: the plain one where none
    /// is set, none where more than one is.
    pub fn from_flags(cxml: bool, markdown: bool, json: bool) -> (r: Option<Format>)
        ensures
            r == selected_format(cxml, markdown, json),
    {
        if cxml {
            if markdown || json {
                None
            } else {
                Some(Format::Cxml)
            }
        } else if markdown {
            if json {
                None
            } else {
                Some(Format::Markdown)
            }
        } else if json {
            Some(Format::Json)
        } else {
            Some(Format::Plain)
        }
    }
}

/// The format chosen by three selectors of which at most one may be set.
pub open spec fn selected_format(cxml: bool, markdown: bool, json: bool) -> Option<Format> {
    if cxml && !markdown && !json {
        Some(Format::Cxml)
    } else if markdown && !cxml && !json {
        Some(Format::Markdown)
    } else if json && !cxml && !markdown {
        Some(Format::Json)
    } else if !cxml && !markdown && !json {
        Some(Format::Plain)
    } else {
        None
    }
}

/// The contents as they are shown: numbered where line numbers are asked
/// for, else as they are.
pub open spec fn shown(content: Seq<u8>, options: PrintFileOptions) -> Seq<u8> {
    if options.line_numbers {
        numbered(content)
    } else {
        content
    }
}

/// The record of one file.
pub open spec fn record(
    path: Seq<u8>,
    content: Seq<u8>,
    options: PrintFileOptions,
    is_last: bool,
) -> Seq<u8> {
    match options.format {
        Format::Cxml => text("<document path=\"") + path + text("\">\n") + shown(content, options)
            + text("</document>\n"),
        Format::Markdown => path + text("\n```") + markdown_language(path) + text("\n") + shown(
            content,
            options,
        ) + text("```\n\n"),
        Format::Json => text("    \"") + path + text("\": {\n      \"contents\": ") + json_string(
            shown(content, options),
        ) + text("\n") + if is_last {
            text("    }\n")
        } else {
            text("    },\n")
        },
        Format::Plain => path + text("\n----\n") + shown(content, options) + text("\n----\n\n"),
    }
}

/// Why a file is passed over, if it is.
pub open spec fn skip_of(content: FileContent) -> Option<Skip> {
    match content {
        FileContent::Unreadable => Some(Skip::Unreadable),
        FileContent::Bytes(bytes) => if valid_utf8(bytes@) {
            None
        } else {
            Some(Skip::NotText)
        },
    }
}

/// What one file adds to the document: its record, or nothing where it is
/// passed over.
pub open spec fn piece(
    path: Seq<u8>,
    content: FileContent,
    options: PrintFileOptions,
    is_last: bool,
) -> Seq<u8> {
    match content {
        FileContent::Bytes(bytes) if valid_utf8(bytes@) => record(path, bytes@, options, is_last),
        _ => Seq::empty(),
    }
}

/// What opens the document.
pub open spec fn opening(format: Format) -> Seq<u8> {
    match format {
        Format::Cxml => text("<documents>\n"),
        Format::Json => text("{\n  \"files\": {\n"),
        _ => Seq::empty(),
    }
}

/// What closes the document.
pub open spec fn closing(format: Format) -> Seq<u8> {
    match format {
        Format::Cxml => text("</documents>\n"),
        Format::Json => text("  }\n}\n"),
        _ => Seq::empty(),
    }
}

/// What reading the file at place `i` gave; a file for which nothing is
/// given counts as one that could not be read.
pub open spec fn content_at(contents: Seq<FileContent>, i: int) -> FileContent {
    if 0 <= i < contents.len() {
        contents[i]
    } else {
        FileContent::Unreadable
    }
}

/// The file at place `i` has a record: it was read, and it is text.
pub open spec fn has_record(contents: Seq<FileContent>, i: int) -> bool {
    skip_of(content_at(contents, i)).is_none()
}

/// The record of the file at place `i` is the last of a document of
/// `count` files: no later file has a record.
pub open spec fn is_last_record(contents: Seq<FileContent>, i: int, count: int) -> bool {
    forall|j: int| i < j < count ==> !#[trigger] has_record(contents, j)
}

/// What the first `count` files add to the document. A record is the last
/// when no file after it has a record: files that are passed over do not
/// count.
pub open spec fn pieces(
    paths: Seq<Seq<u8>>,
    contents: Seq<FileContent>,
    options: PrintFileOptions,
    count: int,
) -> Seq<u8>
    decreases count,
{
    if count <= 0 {
        Seq::empty()
    } else {
        pieces(paths, contents, options, count - 1) + piece(
            paths[count - 1],
            content_at(contents, count - 1),
            options,
            is_last_record(contents, count - 1, paths.len() as int),
        )
    }
}

/// The document of a collection: one line that says so where there is no
/// file; else the opening, the files in their order, and the closing.
pub open spec fn document(
    paths: Seq<Seq<u8>>,
    contents: Seq<FileContent>,
    options: PrintFileOptions,
) -> Seq<u8> {
    if paths.len() == 0 {
        text("No files found.\n")
    } else {
        opening(options.format) + pieces(paths, contents, options, paths.len() as int) + closing(
            options.format,
        )
    }
}

/// The files among the first `count` that are passed over, each with its
/// place and the reason.
pub open spec fn skips(contents: Seq<FileContent>, count: int) -> Seq<(usize, Skip)>
    decreases count,
{
    if count <= 0 {
        Seq::empty()
    } else {
        match skip_of(content_at(contents, count - 1)) {
            Some(why) => skips(contents, count - 1).push(((count - 1) as usize, why)),
            None => skips(contents, count - 1),
        }
    }
}

/// What opens the document.
pub fn print_opening(format: Format) -> (r: Vec<u8>)
    ensures
        r@ == opening(format),
{
    let mut out: Vec<u8> = Vec::new();
    match format {
        Format::Cxml => append_text(&mut out, "<documents>\n"),
        Format::Json => append_text(&mut out, "{\n  \"files\": {\n"),
        _ => {},
    }
    assert(out@ =~= opening(format));
    out
}

/// What closes the document.
pub fn print_closing(format: Format) -> (r: Vec<u8>)
    ensures
        r@ == closing(format),
{
    let mut out: Vec<u8> = Vec::new();
    match format {
        Format::Cxml => append_text(&mut out, "</documents>\n"),
        Format::Json => append_text(&mut out, "  }\n}\n"),
        _ => {},
    }
    assert(out@ =~= closing(format));
    out
}

/// Appends the contents as they are shown.
fn append_shown(out: &mut Vec<u8>, content: &[u8], options: &PrintFileOptions)
    ensures
        final(out)@ == old(out)@ + shown(content@, *options),
{
    if options.line_numbers {
        append_numbered(out, content);
    } else {
        append(out, content);
    }
}

/// Why a file is passed over, if it is: because it could not be read, or
/// because its bytes are not UTF-8 text.
pub fn skip_reason(content: &FileContent) -> (r: Option<Skip>)
    ensures
        r == skip_of(*content),
{
    match content {
        FileContent::Unreadable => Some(Skip::Unreadable),
        FileContent::Bytes(bytes) => if is_utf8(bytes.as_slice()) {
            None
        } else {
            Some(Skip::NotText)
        },
    }
}

/// The record of one file, in the format chosen. A file that could not be
/// read, or whose bytes are not UTF-8 text, has none: the reason is
/// returned instead. `is_last` says that no record follows this one.
pub fn print_file(
    path: &[u8],
    content: &FileContent,
    options: &PrintFileOptions,
    is_last: bool,
) -> (r: Result<Vec<u8>, Skip>)
    ensures
        match r {
            Ok(out) => skip_of(*content).is_none() && out@ == piece(
                path@,
                *content,
                *options,
                is_last,
            ),
            Err(why) => skip_of(*content) == Some(why),
        },
{
    match skip_reason(content) {
        Some(why) => Err(why),
        None => match content {
            FileContent::Bytes(bytes) => Ok(
                print_record(path, bytes.as_slice(), options, is_last),
            ),
            FileContent::Unreadable => Err(Skip::Unreadable),
        },
    }
}

/// The record of a file whose contents are known to be text.
pub fn print_record(
    path: &[u8],
    content: &[u8],
    options: &PrintFileOptions,
    is_last: bool,
) -> (r: Vec<u8>)
    ensures
        r@ == record(path@, content@, *options, is_last),
{
    let mut out: Vec<u8> = Vec::new();
    match options.format {
        Format::Cxml => {
            append_text(&mut out, "<document path=\"");
            append(&mut out, path);
            append_text(&mut out, "\">\n");
            append_shown(&mut out, content, options);
            append_text(&mut out, "</document>\n");
        },
        Format::Markdown => {
            let language = path_to_markdown_language(path);
            append(&mut out, path);
            append_text(&mut out, "\n```");
            append(&mut out, language.as_slice());
            append_text(&mut out, "\n");
            append_shown(&mut out, content, options);
            append_text(&mut out, "```\n\n");
        },
        Format::Json => {
            let mut body: Vec<u8> = Vec::new();
            append_shown(&mut body, content, options);
            assert(body@ =~= shown(content@, *options));
            append_text(&mut out, "    \"");
            append(&mut out, path);
            append_text(&mut out, "\": {\n      \"contents\": ");
            append_json_string(&mut out, body.as_slice());
            append_text(&mut out, "\n");
            if is_last {
                append_text(&mut out, "    }\n");
            } else {
                append_text(&mut out, "    },\n");
            }
        },
        Format::Plain => {
            append(&mut out, path);
            append_text(&mut out, "\n----\n");
            append_shown(&mut out, content, options);
            append_text(&mut out, "\n----\n\n");
        },
    }
    assert(out@ =~= record(path@, content@, *options, is_last));
    out
}

/// The document of a collection whose files have been read: `contents`
/// holds, for each path in its place, what reading it gave. Files that
/// have no record are listed beside the document, and do not count when
/// the records are separated: the last record is that of the last file
/// that has one.
pub fn print_files(
    file_paths: &FileCollection,
    contents: &Vec<FileContent>,
    options: &PrintFileOptions,
) -> (r: Printed)
    ensures
        r.output@ == document(file_paths@, contents@, *options),
        r.skipped@ == skips(contents@, file_paths@.len() as int),
{
    let mut output: Vec<u8> = Vec::new();
    let mut skipped: Vec<(usize, Skip)> = Vec::new();
    if file_paths.is_empty() {
        append_text(&mut output, "No files found.\n");
        assert(output@ =~= document(file_paths@, contents@, *options));
        return Printed { output, skipped };
    }
    let missing = FileContent::Unreadable;
    let count = file_paths.len();
    // The place of the last file that has a record; `count` where none has.
    let mut last: usize = count;
    let mut k: usize = count;
    while k > 0
        invariant_except_break
            last == count,
            forall|j: int| k <= j < count ==> !#[trigger] has_record(contents@, j),
        invariant
            k <= count,
            count == file_paths@.len(),
            missing == FileContent::Unreadable,
        ensures
            last <= count,
            last < count ==> has_record(contents@, last as int),
            forall|j: int| last < j < count ==> !#[trigger] has_record(contents@, j),
            last == count ==> forall|j: int|
                0 <= j < count ==> !#[trigger] has_record(contents@, j),
        decreases k,
    {
        k -= 1;
        let content = if k < contents.len() {
            &contents[k]
        } else {
            &missing
        };
        if skip_reason(content).is_none() {
            last = k;
            break ;
        }
    }
    let head = print_opening(options.format);
    append(&mut output, head.as_slice());
    let mut i: usize = 0;
    assert(output@ =~= head@ + pieces(file_paths@, contents@, *options, 0));
    while i < count
        invariant
            i <= count,
            count == file_paths@.len(),
            last <= count,
            missing == FileContent::Unreadable,
            last < count ==> has_record(contents@, last as int),
            forall|j: int| last < j < count ==> !#[trigger] has_record(contents@, j),
            last == count ==> forall|j: int|
                0 <= j < count ==> !#[trigger] has_record(contents@, j),
            output@ == opening(options.format) + pieces(file_paths@, contents@, *options, i as int),
            skipped@ == skips(contents@, i as int),
        decreases count - i,
    {
        let is_last = i == last;
        let content = if i < contents.len() {
            &contents[i]
        } else {
            &missing
        };
        proof {
            if has_record(contents@, i as int) {
                if i as int != last as int {
                    assert(has_record(contents@, last as int));
                    assert(!is_last_record(contents@, i as int, count as int));
                }
            }
        }
        match print_file(file_paths.get(i), content, options, is_last) {
            Ok(text) => {
                append(&mut output, text.as_slice());
            },
            Err(why) => {
                skipped.push((i, why));
            },
        }
        assert(output@ =~= opening(options.format) + pieces(
            file_paths@,
            contents@,
            *options,
            i + 1,
        ));
        i += 1;
    }
    let tail = print_closing(options.format);
    append(&mut output, tail.as_slice());
    Printed { output, skipped }
}

/// Two runs that found the same files, in whatever order, and read the
/// same contents print the same document, byte for byte.
pub proof fn lemma_same_files_same_document(
    first: Seq<Seq<u8>>,
    second: Seq<Seq<u8>>,
    contents: Seq<FileContent>,
    options: PrintFileOptions,
)
    requires
        sorted(first),
        sorted(second),
        first.to_set() == second.to_set(),
    ensures
        document(first, contents, options) == document(second, contents, options),
        skips(contents, first.len() as int) == skips(contents, second.len() as int),
{
    lemma_order_determined(first, second);
}

} // verus!
