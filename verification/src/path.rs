//! Paths as byte strings: file names and extensions.
//!
//! A path is a run of components separated by `/`. Separators at its end,
//! and components there that are a single `.`, name nothing: the entry is
//! named by the last component before them.

use vstd::prelude::*;
use crate::bytes::rfind_byte;

verus! {

pub const SLASH: u8 = 0x2f;

pub const DOT: u8 = 0x2e;

/// A path without what may follow its last component: separators, and
/// components that are a single `.`. So `a/b/`, `a/b/.` and `a/b//./` all
/// give `a/b`.
pub open spec fn trimmed(path: Seq<u8>) -> Seq<u8>
    decreases path.len(),
{
    if path.len() == 0 {
        path
    } else if path.last() == SLASH {
        trimmed(path.drop_last())
    } else if path.last() == DOT && path.len() >= 2 && path[path.len() - 2] == SLASH {
        trimmed(path.drop_last())
    } else {
        path
    }
}

/// The last component of a path: what follows the last `/` of the path
/// without its trailing separators. It is empty where the path holds no
/// component.
pub open spec fn file_name(path: Seq<u8>) -> Seq<u8> {
    let t = trimmed(path);
    t.subrange(rfind_byte(t, SLASH) + 1, t.len() as int)
}

/// The extension of a path: what follows the last `.` of its file name.
///
/// There is none where the file name holds no `.`, where its only `.` is its
/// first byte (a hidden file such as `.profile`), and for the name `..`. A
/// name that ends in `.` has the empty extension.
pub open spec fn extension(path: Seq<u8>) -> Option<Seq<u8>> {
    let name = file_name(path);
    let dot = rfind_byte(name, DOT);
    if dot <= 0 || name == seq![DOT, DOT] {
        None
    } else {
        Some(name.subrange(dot + 1, name.len() as int))
    }
}

/// Where the last `b` stands in `s`.
pub proof fn lemma_rfind_byte(s: Seq<u8>, b: u8)
    ensures
        -1 <= rfind_byte(s, b) < s.len(),
        rfind_byte(s, b) >= 0 ==> s[rfind_byte(s, b)] == b,
        forall|k: int| rfind_byte(s, b) < k < s.len() ==> s[k] != b,
    decreases s.len(),
{
    if s.len() > 0 && s.last() != b {
        let t = s.drop_last();
        lemma_rfind_byte(t, b);
        assert forall|k: int| rfind_byte(s, b) < k < s.len() implies s[k] != b by {
            if k < t.len() {
                assert(t[k] == s[k]);
            }
        }
    }
}

/// An index is the last place of `b` in `s` if `b` stands there and nowhere
/// after; there is no such place if `b` stands nowhere.
pub proof fn lemma_rfind_byte_is(s: Seq<u8>, b: u8, at: int)
    requires
        -1 <= at < s.len(),
        at >= 0 ==> s[at] == b,
        forall|k: int| at < k < s.len() ==> s[k] != b,
    ensures
        rfind_byte(s, b) == at,
{
    lemma_rfind_byte(s, b);
}

/// Index one past the last `b` in `s`; 0 when there is none.
fn after_last(s: &[u8], b: u8) -> (r: usize)
    ensures
        r == rfind_byte(s@, b) + 1,
        r <= s.len(),
{
    let mut i: usize = s.len();
    while i > 0 && s[i - 1] != b
        invariant
            i <= s.len(),
            forall|k: int| i <= k < s.len() ==> s@[k] != b,
        decreases i,
    {
        i -= 1;
    }
    proof {
        lemma_rfind_byte_is(s@, b, i as int - 1);
    }
    i
}

/// The length of a path without its trailing separators.
fn trimmed_len(path: &[u8]) -> (r: usize)
    ensures
        r <= path.len(),
        path@.subrange(0, r as int) == trimmed(path@),
{
    let mut end: usize = path.len();
    assert(path@.subrange(0, end as int) =~= path@);
    while end > 0 && (path[end - 1] == SLASH || (path[end - 1] == DOT && end >= 2 && path[end - 2]
        == SLASH))
        invariant
            end <= path.len(),
            trimmed(path@.subrange(0, end as int)) == trimmed(path@),
        decreases end,
    {
        assert(path@.subrange(0, end as int).drop_last() =~= path@.subrange(0, end - 1));
        end -= 1;
    }
    end
}

/// The file name of a path.
pub fn file_name_of(path: &[u8]) -> (r: &[u8])
    ensures
        r@ == file_name(path@),
{
    let end = trimmed_len(path);
    let kept = &path[0..end];
    let start = after_last(kept, SLASH);
    &kept[start..end]
}

/// The extension of a path, if it has one.
pub fn extension_of(path: &[u8]) -> (r: Option<&[u8]>)
    ensures
        r.is_some() == extension(path@).is_some(),
        r matches Some(e) ==> e@ == extension(path@).unwrap(),
{
    let name = file_name_of(path);
    let after = after_last(name, DOT);
    if after <= 1 {
        return None;
    }
    proof {
        lemma_rfind_byte(name@, DOT);
    }
    if name.len() == 2 && name[0] == DOT {
        assert(name@ =~= seq![DOT, DOT]);
        return None;
    }
    assert(name@ != seq![DOT, DOT]) by {
        if name@ == seq![DOT, DOT] {
            assert(name@.len() == 2);
            assert(name@[0] == DOT);
        }
    }
    Some(&name[after..name.len()])
}

} // verus!
