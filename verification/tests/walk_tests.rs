use files_to_prompt::collection::{process_path, Entry, EntryKind, FileCollection};
use files_to_prompt::filter::{PathFilter, ProcessPathOptions};
use files_to_prompt::render::{print_files, FileContent, Format, PrintFileOptions};
use ignore::WalkBuilder;
use std::io::Write;
use std::path::Path;
use std::sync::Arc;
use tempfile::{Builder, NamedTempFile, TempDir};

fn root() -> TempDir {
    Builder::new().prefix("walk").tempdir().unwrap()
}

fn file_in(dir: &Path, name: &str, content: &str) -> NamedTempFile {
    let mut file = Builder::new().prefix(name).rand_bytes(0).tempfile_in(dir).unwrap();
    file.write_all(content.as_bytes()).unwrap();
    file.flush().unwrap();
    file
}

fn dir_in(dir: &Path, name: &str) -> TempDir {
    Builder::new().prefix(name).rand_bytes(0).tempdir_in(dir).unwrap()
}

fn options(ignore: &[&str], extensions: &[&str]) -> ProcessPathOptions {
    ProcessPathOptions {
        include_hidden: false,
        ignore_patterns: ignore.iter().map(|p| p.to_string()).collect(),
        ignore_gitignore: false,
        extensions: extensions.iter().map(|e| e.as_bytes().to_vec()).collect(),
    }
}

fn walk(root: &Path, options: &ProcessPathOptions, filter: &Arc<PathFilter>) -> Vec<Entry> {
    let settings = options.walk_settings();
    let mut walker = WalkBuilder::new(root);
    walker.hidden(settings.skip_hidden);
    walker.git_ignore(settings.use_gitignore);
    walker.require_git(settings.require_git);
    let predicate = Arc::clone(filter);
    walker.filter_entry(move |entry| {
        let is_dir = entry.file_type().map_or(false, |kind| kind.is_dir());
        predicate.is_eligible(entry.path().to_str().unwrap().as_bytes(), is_dir)
    });
    let mut entries = Vec::new();
    for result in walker.build() {
        let entry = result.unwrap();
        let kind = if entry.path().is_file() {
            EntryKind::File
        } else if entry.path().is_dir() {
            EntryKind::Directory
        } else {
            EntryKind::Other
        };
        entries.push(Entry { path: entry.path().to_str().unwrap().as_bytes().to_vec(), kind });
    }
    entries
}

fn collect(roots: &[&Path], options: &ProcessPathOptions) -> FileCollection {
    let filter = Arc::new(PathFilter::new(options).unwrap());
    let mut files = FileCollection::new();
    for root in roots {
        let entries = walk(root, options, &filter);
        process_path(&entries, &filter, &mut files);
    }
    files
}

fn found(base: &Path, roots: &[&Path], options: &ProcessPathOptions) -> Vec<String> {
    let prefix = format!("{}/", base.to_str().unwrap());
    collect(roots, options)
        .paths()
        .iter()
        .map(|p| String::from_utf8(p.clone()).unwrap().replacen(&prefix, "", 1))
        .collect()
}

#[test]
fn walk_of_one_file() {
    let base = root();
    let _file1 = file_in(base.path(), "file1.txt", "Contents of file1.txt\n");
    let files = collect(&[base.path()], &options(&[], &[]));
    let path = format!("{}/file1.txt", base.path().to_str().unwrap());
    assert_eq!(files.paths(), &vec![path.clone().into_bytes()]);
    let contents = vec![FileContent::Bytes(b"Contents of file1.txt\n".to_vec())];
    let plain = PrintFileOptions { line_numbers: false, format: Format::Plain };
    let printed = print_files(&files, &contents, &plain);
    assert_eq!(
        String::from_utf8(printed.output).unwrap(),
        format!("{}\n----\nContents of file1.txt\n\n----\n\n", path)
    );
}

#[test]
fn walk_skips_hidden_files_unless_they_are_asked_for() {
    let base = root();
    let _secret = file_in(base.path(), ".secret", "hidden\n");
    let _visible = file_in(base.path(), "visible.txt", "seen\n");
    let hidden_dir = dir_in(base.path(), ".config");
    let _inner = file_in(hidden_dir.path(), "inner.txt", "inner\n");

    let mut opts = options(&[], &[]);
    assert_eq!(found(base.path(), &[base.path()], &opts), vec!["visible.txt"]);
    opts.include_hidden = true;
    assert_eq!(
        found(base.path(), &[base.path()], &opts),
        vec![".config/inner.txt", ".secret", "visible.txt"]
    );
}

#[test]
fn walk_keeps_the_listed_extensions() {
    let base = root();
    let _a = file_in(base.path(), "a.txt", "");
    let _b = file_in(base.path(), "a.md", "");
    let _c = file_in(base.path(), "README", "");
    let sub = dir_in(base.path(), "sub");
    let _d = file_in(sub.path(), "b.txt", "");
    let old = dir_in(base.path(), "sub.old");
    let _e = file_in(old.path(), "c.txt", "");
    assert_eq!(
        found(base.path(), &[base.path()], &options(&[], &["txt"])),
        vec!["a.txt", "sub/b.txt"]
    );
}

#[test]
fn walk_leaves_out_what_the_patterns_match() {
    let base = root();
    let _a = file_in(base.path(), "a.txt", "");
    let _b = file_in(base.path(), "b.md", "");
    let _c = file_in(base.path(), "c.csv", "");
    let build = dir_in(base.path(), "build");
    let _d = file_in(build.path(), "d.txt", "");
    assert_eq!(
        found(base.path(), &[base.path()], &options(&["*.md", "*.csv"], &[])),
        vec!["a.txt", "build/d.txt"]
    );
    assert_eq!(
        found(base.path(), &[base.path()], &options(&["**/build"], &[])),
        vec!["a.txt", "b.md", "c.csv"]
    );
}

#[test]
fn walk_honours_gitignore_unless_told_not_to() {
    let base = root();
    let _rules = file_in(base.path(), ".gitignore", "ignored.txt\n");
    let _kept = file_in(base.path(), "kept.txt", "");
    let _ignored = file_in(base.path(), "ignored.txt", "");
    let mut opts = options(&[], &[]);
    assert_eq!(found(base.path(), &[base.path()], &opts), vec!["kept.txt"]);
    opts.ignore_gitignore = true;
    assert_eq!(found(base.path(), &[base.path()], &opts), vec!["ignored.txt", "kept.txt"]);
}

#[test]
fn walk_of_overlapping_roots_finds_each_file_once() {
    let base = root();
    let file1 = file_in(base.path(), "file1.txt", "Contents of file1.txt\n");
    let f1 = dir_in(base.path(), "f1");
    let _a = file_in(f1.path(), "a.txt", "");
    let f2 = dir_in(base.path(), "f2");
    let _b = file_in(f2.path(), "b.txt", "");
    let opts = options(&[], &[]);
    assert_eq!(
        found(base.path(), &[base.path(), file1.path()], &opts),
        vec!["f1/a.txt", "f2/b.txt", "file1.txt"]
    );
    assert_eq!(
        found(base.path(), &[f2.path(), f1.path(), f2.path()], &opts),
        vec!["f1/a.txt", "f2/b.txt"]
    );
}
