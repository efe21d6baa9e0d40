//! Which entries of a traversal are eligible.
//!
//! An entry is ineligible when its path matches one of the ignore patterns,
//! or when an extension allow-list is active and the entry's extension is
//! not on it. Glob matching is the `globset` crate's; everything this module
//! states about it is stated over the names below and is not proved here.
//!
//! Every glob in this module is parsed by `Glob::new`, with the default
//! options, and no public function takes or returns a glob, a builder or a
//! set. What is said below of builders and sets is said of those made this
//! way: a set of globs built with other options would match differently on
//! the same pattern texts.

use vstd::prelude::*;
use globset::{Candidate, Glob, GlobSet, GlobSetBuilder};
use crate::bytes::bytes_eq;
use crate::path::{extension, extension_of};

verus! {

/// `globset::Glob`, a parsed pattern.
#[verifier::external_type_specification]
#[verifier::external_body]
pub struct ExGlob(Glob);

/// `globset::GlobSetBuilder`, the patterns gathered for a set.
#[verifier::external_type_specification]
#[verifier::external_body]
pub struct ExGlobSetBuilder(GlobSetBuilder);

/// `globset::GlobSet`, patterns compiled to be matched together.
#[verifier::external_type_specification]
#[verifier::external_body]
pub struct ExGlobSet(GlobSet);

/// Whether `Glob::new` accepts this text as a pattern.
pub uninterp spec fn glob_accepts(pattern: Seq<char>) -> bool;

/// The pattern text a `Glob` was parsed from, as `Glob::glob` returns it.
pub uninterp spec fn glob_pattern(glob: Glob) -> Seq<char>;

/// The patterns added to a builder so far, in the order they were added.
pub uninterp spec fn builder_patterns(builder: GlobSetBuilder) -> Seq<Seq<char>>;

/// Whether `GlobSetBuilder::build` succeeds on a builder that holds these
/// patterns.
pub uninterp spec fn set_builds(patterns: Seq<Seq<char>>) -> bool;

/// The patterns a set was built from.
pub uninterp spec fn set_patterns(set: GlobSet) -> Seq<Seq<char>>;

/// Whether a set built from these patterns, each parsed by `Glob::new`,
/// matches the path: the answer of `GlobSet::is_match_candidate`.
pub uninterp spec fn patterns_match(patterns: Seq<Seq<char>>, path: Seq<u8>) -> bool;

/// Calls `GlobSetBuilder::new`. The new builder holds no pattern.
#[verifier::external_body]
fn new_builder() -> (r: GlobSetBuilder)
    ensures
        builder_patterns(r) == Seq::<Seq<char>>::empty(),
{
    GlobSetBuilder::new()
}

/// Calls `Glob::new`, which parses a pattern with the default options. The
/// result is some glob exactly when the pattern is accepted, and that glob
/// keeps the pattern's text.
#[verifier::external_body]
fn parse_glob(pattern: &str) -> (r: Option<Glob>)
    ensures
        r.is_some() == glob_accepts(pattern@),
        r matches Some(g) ==> glob_pattern(g) == pattern@,
{
    Glob::new(pattern).ok()
}

/// Calls `GlobSetBuilder::add`, which appends the glob to the builder's
/// patterns.
#[verifier::external_body]
fn add_glob(builder: &mut GlobSetBuilder, glob: Glob)
    ensures
        builder_patterns(*final(builder)) == builder_patterns(*old(builder)).push(
            glob_pattern(glob),
        ),
{
    builder.add(glob);
}

/// Calls `GlobSetBuilder::build`. A set that comes back holds the builder's
/// patterns. Building fails only where a pattern cannot be compiled; with
/// no pattern at all it returns the empty set. The builder holds only
/// globs that `parse_glob` made, so the pattern texts say all there is to
/// say of it.
#[verifier::external_body]
fn build_set(builder: &GlobSetBuilder) -> (r: Option<GlobSet>)
    ensures
        r.is_some() == set_builds(builder_patterns(*builder)),
        r matches Some(s) ==> set_patterns(s) == builder_patterns(*builder),
        builder_patterns(*builder).len() == 0 ==> r.is_some(),
{
    builder.build().ok()
}

/// Calls `GlobSet::is_match_candidate` on `Candidate::from_bytes(path)`:
/// whether any pattern of the set matches the path. An empty set matches
/// nothing. The set comes from `build_set`, and so from globs with the
/// default options; of a set made otherwise the answer would not be a
/// matter of the pattern texts alone.
#[verifier::external_body]
fn set_matches(set: &GlobSet, path: &[u8]) -> (r: bool)
    ensures
        r == patterns_match(set_patterns(*set), path@),
        set_patterns(*set).len() == 0 ==> !r,
{
    set.is_match_candidate(&Candidate::from_bytes(path))
}

/// How a set of root paths is to be searched.
pub struct ProcessPathOptions {
    /// Entries whose name begins with `.` are visited too.
    pub include_hidden: bool,
    /// Glob patterns; an entry whose path matches one is left out.
    pub ignore_patterns: Vec<String>,
    /// `.gitignore` files are not consulted.
    pub ignore_gitignore: bool,
    /// Extensions, without the dot; where there are any, only files with one
    /// of them are kept.
    pub extensions: Vec<Vec<u8>>,
}

/// What the directory walker is told.
#[derive(Clone, Copy, Debug, PartialEq, Eq, Structural)]
pub struct WalkSettings {
    /// Skip entries whose name begins with `.`.
    pub skip_hidden: bool,
    /// Skip what `.gitignore` files exclude.
    pub use_gitignore: bool,
    /// Consult `.gitignore` files only inside a git repository.
    pub require_git: bool,
}

/// The views of the byte strings of a list.
pub open spec fn byte_views(v: Seq<Vec<u8>>) -> Seq<Seq<u8>> {
    Seq::new(v.len(), |i: int| v[i]@)
}

/// The views of the strings of a list.
pub open spec fn string_views(v: Seq<String>) -> Seq<Seq<char>> {
    Seq::new(v.len(), |i: int| v[i]@)
}

/// The patterns of a list that parse, in their order; the others are
/// passed over.
pub open spec fn accepted(patterns: Seq<Seq<char>>) -> Seq<Seq<char>>
    decreases patterns.len(),
{
    if patterns.len() == 0 {
        Seq::empty()
    } else if glob_accepts(patterns.last()) {
        accepted(patterns.drop_last()).push(patterns.last())
    } else {
        accepted(patterns.drop_last())
    }
}

/// The extension policy. With an empty allow-list everything passes.
/// Otherwise an entry with an extension passes when the list holds that
/// extension, byte for byte; an entry without one passes only when it is a
/// directory, so that the traversal can descend into it.
pub open spec fn extension_allowed(extensions: Seq<Seq<u8>>, path: Seq<u8>, is_dir: bool) -> bool {
    extensions.len() == 0 || match extension(path) {
        Some(e) => extensions.contains(e),
        None => is_dir,
    }
}

/// An entry is eligible when no ignore pattern matches its path and the
/// extension policy lets it pass.
pub open spec fn eligible(
    patterns: Seq<Seq<char>>,
    extensions: Seq<Seq<u8>>,
    path: Seq<u8>,
    is_dir: bool,
) -> bool {
    !patterns_match(patterns, path) && extension_allowed(extensions, path, is_dir)
}

impl ProcessPathOptions {
    /// The walker visits hidden entries only when asked to, honours
    /// `.gitignore` files unless told otherwise, and does so outside git
    /// repositories too.
    pub fn walk_settings(&self) -> (r: WalkSettings)
        ensures
            r.skip_hidden == !self.include_hidden,
            r.use_gitignore == !self.ignore_gitignore,
            !r.require_git,
    {
        WalkSettings {
            skip_hidden: !self.include_hidden,
            use_gitignore: !self.ignore_gitignore,
            require_git: false,
        }
    }
}

/// The predicate applied to every entry of a traversal.
pub struct PathFilter {
    ignore: GlobSet,
    extensions: Vec<Vec<u8>>,
}

impl PathFilter {
    /// The ignore patterns in force.
    pub closed spec fn patterns(&self) -> Seq<Seq<char>> {
        set_patterns(self.ignore)
    }

    /// The extension allow-list; empty when no filter is active.
    pub closed spec fn extensions(&self) -> Seq<Seq<u8>> {
        byte_views(self.extensions@)
    }

    /// Whether this filter lets the entry pass.
    pub open spec fn accepts(&self, path: Seq<u8>, is_dir: bool) -> bool {
        eligible(self.patterns(), self.extensions(), path, is_dir)
    }

    /// Builds the filter of a run. Patterns that do not parse are passed
    /// over. There is no filter only where the patterns that do parse
    /// cannot be compiled together, which never happens without patterns.
    pub fn new(options: &ProcessPathOptions) -> (r: Option<PathFilter>)
        ensures
            r.is_some() == set_builds(accepted(string_views(options.ignore_patterns@))),
            accepted(string_views(options.ignore_patterns@)).len() == 0 ==> r.is_some(),
            r matches Some(f) ==> {
                &&& f.patterns() == accepted(string_views(options.ignore_patterns@))
                &&& f.extensions() == byte_views(options.extensions@)
            },
    {
        let ghost all = string_views(options.ignore_patterns@);
        let mut builder = new_builder();
        let mut i: usize = 0;
        assert(all.take(0) =~= Seq::<Seq<char>>::empty());
        while i < options.ignore_patterns.len()
            invariant
                i <= options.ignore_patterns.len(),
                all == string_views(options.ignore_patterns@),
                builder_patterns(builder) == accepted(all.take(i as int)),
            decreases options.ignore_patterns.len() - i,
        {
            let found = parse_glob(options.ignore_patterns[i].as_str());
            proof {
                let next = all.take(i + 1);
                assert(next.drop_last() =~= all.take(i as int));
                assert(next.last() == options.ignore_patterns@[i as int]@);
            }
            match found {
                Some(glob) => add_glob(&mut builder, glob),
                None => {},
            }
            i += 1;
        }
        assert(all.take(i as int) =~= all);
        match build_set(&builder) {
            Some(ignore) => {
                let extensions = copy_list(&options.extensions);
                Some(PathFilter { ignore, extensions })
            },
            None => None,
        }
    }

    /// Decides one entry: its path must match no ignore pattern, and must
    /// pass the extension policy.
    pub fn is_eligible(&self, path: &[u8], is_dir: bool) -> (r: bool)
        ensures
            r == self.accepts(path@, is_dir),
            self.patterns().len() == 0 ==> r == extension_allowed(
                self.extensions(),
                path@,
                is_dir,
            ),
    {
        decide(set_matches(&self.ignore, path), &self.extensions, path, is_dir)
    }
}

/// Decides one entry once it is known whether an ignore pattern matches
/// its path: an entry that is ignored is out, any other is in when the
/// extension policy lets it pass.
pub fn decide(ignored: bool, extensions: &Vec<Vec<u8>>, path: &[u8], is_dir: bool) -> (r: bool)
    ensures
        r == (!ignored && extension_allowed(byte_views(extensions@), path@, is_dir)),
{
    if ignored {
        return false;
    }
    if extensions.len() == 0 {
        return true;
    }
    match extension_of(path) {
        Some(e) => contains_bytes(extensions, e),
        None => is_dir,
    }
}

/// A copy of a list of byte strings.
fn copy_list(list: &Vec<Vec<u8>>) -> (r: Vec<Vec<u8>>)
    ensures
        byte_views(r@) == byte_views(list@),
{
    let mut out: Vec<Vec<u8>> = Vec::new();
    let mut i: usize = 0;
    while i < list.len()
        invariant
            i <= list.len(),
            out.len() == i,
            forall|k: int| 0 <= k < i ==> out@[k]@ == list@[k]@,
        decreases list.len() - i,
    {
        let item = crate::bytes::copy_range(list[i].as_slice(), 0, list[i].len());
        assert(item@ =~= list@[i as int]@);
        out.push(item);
        i += 1;
    }
    assert(byte_views(out@) =~= byte_views(list@));
    out
}

/// Whether a list of byte strings holds `item`.
pub fn contains_bytes(list: &Vec<Vec<u8>>, item: &[u8]) -> (r: bool)
    ensures
        r == byte_views(list@).contains(item@),
{
    let mut i: usize = 0;
    while i < list.len()
        invariant
            i <= list.len(),
            forall|k: int| 0 <= k < i ==> list@[k]@ != item@,
        decreases list.len() - i,
    {
        if bytes_eq(list[i].as_slice(), item) {
            assert(byte_views(list@)[i as int] == item@);
            return true;
        }
        i += 1;
    }
    assert(!byte_views(list@).contains(item@)) by {
        if byte_views(list@).contains(item@) {
            let k = choose|k: int| 0 <= k < list@.len() && byte_views(list@)[k] == item@;
            assert(list@[k]@ == item@);
        }
    }
    false
}

} // verus!
