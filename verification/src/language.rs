//! The language tag of a fenced code block, by file extension.

use vstd::prelude::*;
use crate::bytes::{copy_range, is_text, text, text_bytes};
use crate::path::{extension, extension_of};

verus! {

/// The tag for an extension: the language's name where the extension
/// abbreviates it, the extension itself where it does not. The extensions
/// `c`, `cpp`, `css`, `html`, `java`, `json`, `xml` and `yaml` are the names
/// of their languages, and so stand for themselves like any other.
pub open spec fn language_of(ext: Seq<u8>) -> Seq<u8> {
    if ext == text("js") {
        text("javascript")
    } else if ext == text("py") {
        text("python")
    } else if ext == text("rb") {
        text("ruby")
    } else if ext == text("sh") {
        text("bash")
    } else if ext == text("ts") {
        text("typescript")
    } else if ext == text("yml") {
        text("yaml")
    } else {
        ext
    }
}

/// The tag for a path: that of its extension, and `plaintext` where it
/// has none.
pub open spec fn markdown_language(path: Seq<u8>) -> Seq<u8> {
    match extension(path) {
        Some(ext) => language_of(ext),
        None => text("plaintext"),
    }
}

/// The language tag under which a file's contents are fenced.
pub fn path_to_markdown_language(path: &[u8]) -> (r: Vec<u8>)
    ensures
        r@ == markdown_language(path@),
{
    match extension_of(path) {
        Some(ext) => {
            if is_text(ext, "js") {
                text_bytes("javascript")
            } else if is_text(ext, "py") {
                text_bytes("python")
            } else if is_text(ext, "rb") {
                text_bytes("ruby")
            } else if is_text(ext, "sh") {
                text_bytes("bash")
            } else if is_text(ext, "ts") {
                text_bytes("typescript")
            } else if is_text(ext, "yml") {
                text_bytes("yaml")
            } else {
                let r = copy_range(ext, 0, ext.len());
                assert(r@ =~= ext@);
                r
            }
        },
        None => text_bytes("plaintext"),
    }
}

} // verus!
