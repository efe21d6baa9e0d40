//! The files of a run: a set of paths kept in lexicographic order.

use vstd::prelude::*;
use crate::bytes::{copy_range, lemma_lex_irreflexive, lemma_lex_total, lemma_lex_transitive, lex_lt, lex_order, Order};
use crate::filter::{byte_views, PathFilter};

verus! {

/// Strictly ascending in lexicographic order: sorted, and nothing twice.
pub open spec fn sorted(s: Seq<Seq<u8>>) -> bool {
    forall|i: int, j: int| #![trigger s[i], s[j]] 0 <= i < j < s.len() ==> lex_lt(s[i], s[j])
}

/// What an entry of a traversal is.
#[derive(Clone, Copy, Debug, PartialEq, Eq, Structural)]
pub enum EntryKind {
    /// A regular file.
    File,
    /// A directory, or a link to one.
    Directory,
    /// Anything else.
    Other,
}

/// One entry that a traversal came upon.
pub struct Entry {
    pub path: Vec<u8>,
    pub kind: EntryKind,
}

/// The paths of the entries that are regular files and that the filter
/// lets pass.
pub open spec fn selected(entries: Seq<Entry>, filter: PathFilter) -> Set<Seq<u8>> {
    Set::new(
        |p: Seq<u8>|
            exists|i: int|
                0 <= i < entries.len() && selects(#[trigger] entries[i], filter) && entries[i].path@
                    == p,
    )
}

/// The entry is a regular file that the filter lets pass.
pub open spec fn selects(entry: Entry, filter: PathFilter) -> bool {
    entry.kind == EntryKind::File && filter.accepts(entry.path@, false)
}

/// The files collected for a run. No path occurs twice, and the paths stand
/// in lexicographic order of their bytes, whatever order they came in.
pub struct FileCollection {
    paths: Vec<Vec<u8>>,
}

impl View for FileCollection {
    type V = Seq<Seq<u8>>;

    closed spec fn view(&self) -> Seq<Seq<u8>> {
        byte_views(self.paths@)
    }
}

impl FileCollection {
    /// The invariant of the type: the paths ascend strictly.
    pub open spec fn wf(&self) -> bool {
        sorted(self@)
    }

    /// The empty collection.
    pub fn new() -> (r: FileCollection)
        ensures
            r.wf(),
            r@ == Seq::<Seq<u8>>::empty(),
    {
        let r = FileCollection { paths: Vec::new() };
        assert(byte_views(r.paths@) =~= Seq::<Seq<u8>>::empty());
        r
    }

    /// The number of paths.
    pub fn len(&self) -> (r: usize)
        ensures
            r == self@.len(),
    {
        self.paths.len()
    }

    /// Whether there is no path at all.
    pub fn is_empty(&self) -> (r: bool)
        ensures
            r == (self@.len() == 0),
    {
        self.paths.len() == 0
    }

    /// The path at place `i` of the order.
    pub fn get(&self, i: usize) -> (r: &[u8])
        requires
            i < self@.len(),
        ensures
            r@ == self@[i as int],
    {
        self.paths[i].as_slice()
    }

    /// The paths in their order.
    pub fn paths(&self) -> (r: &Vec<Vec<u8>>)
        ensures
            byte_views(r@) == self@,
    {
        &self.paths
    }

    /// Whether the collection holds `path`.
    pub fn contains(&self, path: &[u8]) -> (r: bool)
        ensures
            r == self@.contains(path@),
    {
        crate::filter::contains_bytes(&self.paths, path)
    }

    /// Adds a path. The collection then holds what it held and `path`, in
    /// order; a path that was there already changes nothing. Returns whether
    /// the path was new.
    pub fn insert(&mut self, path: &[u8]) -> (r: bool)
        requires
            old(self).wf(),
        ensures
            final(self).wf(),
            final(self)@.to_set() == old(self)@.to_set().insert(path@),
            r == !old(self)@.contains(path@),
            final(self)@.len() == old(self)@.len() + if r { 1int } else { 0int },
            !r ==> final(self)@ == old(self)@,
    {
        let ghost before = self@;
        let mut i: usize = self.paths.len();
        let mut known = false;
        while i > 0
            invariant_except_break
                !known,
            invariant
                i <= self.paths.len(),
                before == byte_views(self.paths@),
                sorted(before),
                forall|j: int| i <= j < before.len() ==> lex_lt(path@, #[trigger] before[j]),
            ensures
                i <= self.paths.len(),
                known ==> 0 < i && before[i - 1] == path@,
                !known ==> forall|j: int| 0 <= j < i ==> lex_lt(#[trigger] before[j], path@),
                forall|j: int| i <= j < before.len() ==> lex_lt(path@, #[trigger] before[j]),
            decreases i,
        {
            let order = lex_order(path, self.paths[i - 1].as_slice());
            assert(before[i - 1] == self.paths@[i - 1]@);
            match order {
                Order::Before => {
                    i -= 1;
                },
                Order::Same => {
                    known = true;
                    break ;
                },
                Order::After => {
                    proof {
                        lemma_lex_total(path@, before[i - 1]);
                        assert forall|j: int| 0 <= j < i implies lex_lt(
                            #[trigger] before[j],
                            path@,
                        ) by {
                            if j < i - 1 {
                                lemma_lex_transitive(before[j], before[i - 1], path@);
                            }
                        }
                    }
                    break ;
                },
            }
        }
        if known {
            proof {
                assert(before.contains(path@));
                assert(before.to_set().insert(path@) =~= before.to_set());
            }
            return false;
        }
        proof {
            assert(!before.contains(path@)) by {
                if before.contains(path@) {
                    let k = choose|k: int| 0 <= k < before.len() && before[k] == path@;
                    lemma_lex_irreflexive(path@);
                }
            }
        }
        let item = copy_range(path, 0, path.len());
        assert(item@ =~= path@);
        self.paths.insert(i, item);
        proof {
            let after = byte_views(self.paths@);
            assert(after =~= before.insert(i as int, path@));
            assert forall|a: int, b: int| 0 <= a < b < after.len() implies lex_lt(
                after[a],
                after[b],
            ) by {
                if a < i && b > i {
                    assert(after[a] == before[a]);
                    assert(after[b] == before[b - 1]);
                } else if a > i {
                    assert(after[a] == before[a - 1]);
                    assert(after[b] == before[b - 1]);
                } else if b < i {
                    assert(after[a] == before[a]);
                    assert(after[b] == before[b]);
                }
            }
            assert(after.to_set() =~= before.to_set().insert(path@)) by {
                assert forall|x: Seq<u8>| after.to_set().contains(x) == before.to_set().insert(
                    path@,
                ).contains(x) by {
                    if after.contains(x) {
                        let k = choose|k: int| 0 <= k < after.len() && after[k] == x;
                        if k < i {
                            assert(before[k] == x);
                        } else if k > i {
                            assert(before[k - 1] == x);
                        }
                    }
                    if before.contains(x) {
                        let k = choose|k: int| 0 <= k < before.len() && before[k] == x;
                        if k < i {
                            assert(after[k] == x);
                        } else {
                            assert(after[k + 1] == x);
                        }
                    }
                    if x == path@ {
                        assert(after[i as int] == x);
                    }
                }
            }
        }
        true
    }
}

/// Takes what the traversal of one root came upon into the collection: the
/// regular files that the filter lets pass, and nothing else. Directories
/// and other entries are dropped, and so is every path that is there
/// already.
pub fn process_path(entries: &Vec<Entry>, filter: &PathFilter, file_paths: &mut FileCollection)
    requires
        old(file_paths).wf(),
    ensures
        final(file_paths).wf(),
        final(file_paths)@.to_set() == old(file_paths)@.to_set().union(selected(entries@, *filter)),
{
    let mut i: usize = 0;
    assert(file_paths@.to_set() =~= old(file_paths)@.to_set().union(
        selected(entries@.take(0), *filter),
    ));
    while i < entries.len()
        invariant
            i <= entries.len(),
            file_paths.wf(),
            file_paths@.to_set() == old(file_paths)@.to_set().union(
                selected(entries@.take(i as int), *filter),
            ),
        decreases entries.len() - i,
    {
        let entry = &entries[i];
        let ghost seen = entries@.take(i as int);
        let ghost next = entries@.take(i + 1);
        let ghost held = file_paths@.to_set();
        let mut keep = false;
        if let EntryKind::File = entry.kind {
            keep = filter.is_eligible(entry.path.as_slice(), false);
        }
        if keep {
            file_paths.insert(entry.path.as_slice());
        }
        proof {
            let extra = if keep {
                Set::<Seq<u8>>::empty().insert(entry.path@)
            } else {
                Set::<Seq<u8>>::empty()
            };
            assert(selected(next, *filter) =~= selected(seen, *filter).union(extra)) by {
                assert forall|p: Seq<u8>| selected(next, *filter).contains(p) == selected(
                    seen,
                    *filter,
                ).union(extra).contains(p) by {
                    if selected(next, *filter).contains(p) {
                        let k = choose|k: int|
                            0 <= k < next.len() && selects(#[trigger] next[k], *filter)
                                && next[k].path@ == p;
                        if k < i {
                            assert(seen[k] == next[k]);
                        }
                    }
                    if selected(seen, *filter).contains(p) {
                        let k = choose|k: int|
                            0 <= k < seen.len() && selects(#[trigger] seen[k], *filter)
                                && seen[k].path@ == p;
                        assert(next[k] == seen[k]);
                    }
                    if extra.contains(p) {
                        assert(next[i as int] == *entry);
                        assert(selects(next[i as int], *filter));
                    }
                }
            }
            assert(file_paths@.to_set() =~= old(file_paths)@.to_set().union(
                selected(next, *filter),
            ));
        }
        i += 1;
    }
    assert(entries@.take(i as int) =~= entries@);
}

/// A collection holds no path twice.
pub proof fn lemma_sorted_distinct(s: Seq<Seq<u8>>)
    requires
        sorted(s),
    ensures
        s.no_duplicates(),
{
    assert forall|i: int, j: int| 0 <= i < s.len() && 0 <= j < s.len() && i != j implies s[i]
        != s[j] by {
        lemma_lex_irreflexive(s[i]);
        if i < j {
            assert(lex_lt(s[i], s[j]));
        } else {
            assert(lex_lt(s[j], s[i]));
        }
    }
}

/// Collecting the same entries once more changes nothing.
pub proof fn lemma_collect_again(
    before: Seq<Seq<u8>>,
    once: Seq<Seq<u8>>,
    twice: Seq<Seq<u8>>,
    found: Set<Seq<u8>>,
)
    requires
        sorted(once),
        sorted(twice),
        once.to_set() == before.to_set().union(found),
        twice.to_set() == once.to_set().union(found),
    ensures
        twice == once,
{
    assert(twice.to_set() =~= once.to_set());
    lemma_order_determined(twice, once);
}

/// Two collections that hold the same paths are equal: the order in which
/// the paths were found leaves no trace.
pub proof fn lemma_order_determined(a: Seq<Seq<u8>>, b: Seq<Seq<u8>>)
    requires
        sorted(a),
        sorted(b),
        a.to_set() == b.to_set(),
    ensures
        a == b,
    decreases a.len(),
{
    if a.len() == 0 {
        if b.len() > 0 {
            assert(b.contains(b[0]));
            assert(a.to_set().contains(b[0]));
        }
        assert(a =~= b);
    } else {
        let x = a.last();
        assert(a.contains(x));
        assert(b.to_set().contains(x));
        let j = choose|j: int| 0 <= j < b.len() && b[j] == x;
        let y = b.last();
        assert(b.contains(y));
        assert(a.to_set().contains(y));
        let i = choose|i: int| 0 <= i < a.len() && a[i] == y;
        lemma_lex_total(x, y);
        assert(x == y) by {
            if j < b.len() - 1 {
                assert(lex_lt(b[j], b[b.len() - 1]));
            }
            if i < a.len() - 1 {
                assert(lex_lt(a[i], a[a.len() - 1]));
            }
        }
        let a1 = a.drop_last();
        let b1 = b.drop_last();
        lemma_lex_irreflexive(x);
        assert(a1.to_set() =~= b1.to_set()) by {
            assert forall|p: Seq<u8>| a1.to_set().contains(p) == b1.to_set().contains(p) by {
                if a1.contains(p) {
                    let k = choose|k: int| 0 <= k < a1.len() && a1[k] == p;
                    assert(lex_lt(a[k], a[a.len() - 1]));
                    assert(a.contains(p));
                    assert(b.to_set().contains(p));
                    let m = choose|m: int| 0 <= m < b.len() && b[m] == p;
                    assert(b1[m] == p);
                }
                if b1.contains(p) {
                    let k = choose|k: int| 0 <= k < b1.len() && b1[k] == p;
                    assert(lex_lt(b[k], b[b.len() - 1]));
                    assert(b.contains(p));
                    assert(a.to_set().contains(p));
                    let m = choose|m: int| 0 <= m < a.len() && a[m] == p;
                    assert(a1[m] == p);
                }
            }
        }
        assert(sorted(a1)) by {
            assert forall|i: int, j: int| 0 <= i < j < a1.len() implies lex_lt(a1[i], a1[j]) by {
                assert(lex_lt(a[i], a[j]));
            }
        }
        assert(sorted(b1)) by {
            assert forall|i: int, j: int| 0 <= i < j < b1.len() implies lex_lt(b1[i], b1[j]) by {
                assert(lex_lt(b[i], b[j]));
            }
        }
        lemma_order_determined(a1, b1);
        assert(a =~= a1.push(x));
        assert(b =~= b1.push(y));
    }
}

} // verus!
