use files_to_prompt::bytes::{lex_order, Order};
use files_to_prompt::collection::{process_path, Entry, EntryKind, FileCollection};
use files_to_prompt::filter::{PathFilter, ProcessPathOptions};

fn filter(ignore: &[&str], extensions: &[&str]) -> PathFilter {
    let options = ProcessPathOptions {
        include_hidden: false,
        ignore_patterns: ignore.iter().map(|p| p.to_string()).collect(),
        ignore_gitignore: false,
        extensions: extensions.iter().map(|e| e.as_bytes().to_vec()).collect(),
    };
    PathFilter::new(&options).unwrap()
}

fn file(path: &str) -> Entry {
    Entry { path: path.as_bytes().to_vec(), kind: EntryKind::File }
}

fn directory(path: &str) -> Entry {
    Entry { path: path.as_bytes().to_vec(), kind: EntryKind::Directory }
}

fn paths(files: &FileCollection) -> Vec<String> {
    files.paths().iter().map(|p| String::from_utf8(p.clone()).unwrap()).collect()
}

#[test]
fn paths_come_out_in_order_whatever_order_they_went_in() {
    let mut files = FileCollection::new();
    for path in ["b/z", "a", "b", "a/b", "B", "ab", "a.txt", ""] {
        assert!(files.insert(path.as_bytes()));
    }
    assert_eq!(paths(&files), vec!["", "B", "a", "a.txt", "a/b", "ab", "b", "b/z"]);
    assert_eq!(files.len(), 8);
    assert!(!files.is_empty());
    assert!(files.contains(b"a/b"));
    assert!(!files.contains(b"a/"));
    assert_eq!(files.get(2), b"a");
}

#[test]
fn path_given_twice_is_held_once() {
    let mut files = FileCollection::new();
    assert!(files.insert(b"tests/inputs/01_basic/file1.txt"));
    assert!(!files.insert(b"tests/inputs/01_basic/file1.txt"));
    assert_eq!(paths(&files), vec!["tests/inputs/01_basic/file1.txt"]);
}

#[test]
fn file_reached_through_two_roots_gives_one_record() {
    let all = filter(&[], &[]);
    let mut files = FileCollection::new();
    let through_directory =
        vec![directory("tests/inputs/01_basic"), file("tests/inputs/01_basic/file1.txt")];
    let directly = vec![file("tests/inputs/01_basic/file1.txt")];
    process_path(&through_directory, &all, &mut files);
    process_path(&directly, &all, &mut files);
    assert_eq!(paths(&files), vec!["tests/inputs/01_basic/file1.txt"]);
}

#[test]
fn collecting_again_changes_nothing() {
    let all = filter(&[], &[]);
    let entries = vec![file("b"), directory("d"), file("a"), file("d/c")];
    let mut files = FileCollection::new();
    process_path(&entries, &all, &mut files);
    let once = paths(&files);
    process_path(&entries, &all, &mut files);
    assert_eq!(paths(&files), once);
    assert_eq!(once, vec!["a", "b", "d/c"]);
}

#[test]
fn only_regular_files_are_collected() {
    let all = filter(&[], &[]);
    let entries = vec![
        directory("d"),
        file("d/a"),
        Entry { path: b"d/link".to_vec(), kind: EntryKind::Other },
    ];
    let mut files = FileCollection::new();
    process_path(&entries, &all, &mut files);
    assert_eq!(paths(&files), vec!["d/a"]);
}

#[test]
fn extension_filter_keeps_the_listed_extensions() {
    let txt = filter(&[], &["txt"]);
    let entries = vec![file("a.txt"), file("a.md"), file("README"), file("b.TXT"), file("c.txt")];
    let mut files = FileCollection::new();
    process_path(&entries, &txt, &mut files);
    assert_eq!(paths(&files), vec!["a.txt", "c.txt"]);
}

#[test]
fn ignored_files_are_not_collected() {
    let no_docs = filter(&["*.md", "*.csv"], &[]);
    let entries = vec![file("d/a.md"), file("d/b.txt"), file("d/c.csv"), file("d/md")];
    let mut files = FileCollection::new();
    process_path(&entries, &no_docs, &mut files);
    assert_eq!(paths(&files), vec!["d/b.txt", "d/md"]);
}

#[test]
fn order_is_that_of_the_bytes() {
    assert_eq!(lex_order(b"", b""), Order::Same);
    assert_eq!(lex_order(b"", b"a"), Order::Before);
    assert_eq!(lex_order(b"a", b""), Order::After);
    assert_eq!(lex_order(b"abc", b"abd"), Order::Before);
    assert_eq!(lex_order(b"abd", b"abc"), Order::After);
    assert_eq!(lex_order(b"ab", b"abc"), Order::Before);
    assert_eq!(lex_order(b"Z", b"a"), Order::Before);
    assert_eq!(lex_order("\u{e9}".as_bytes(), b"z"), Order::After);
    assert_eq!(lex_order(b"same", b"same"), Order::Same);
}
