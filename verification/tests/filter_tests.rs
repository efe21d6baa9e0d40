use files_to_prompt::filter::{contains_bytes, decide, PathFilter, ProcessPathOptions};
use files_to_prompt::language::path_to_markdown_language;
use files_to_prompt::path::{extension_of, file_name_of};

fn options(ignore: &[&str], extensions: &[&str]) -> ProcessPathOptions {
    ProcessPathOptions {
        include_hidden: false,
        ignore_patterns: ignore.iter().map(|p| p.to_string()).collect(),
        ignore_gitignore: false,
        extensions: extensions.iter().map(|e| e.as_bytes().to_vec()).collect(),
    }
}

fn filter(ignore: &[&str], extensions: &[&str]) -> PathFilter {
    PathFilter::new(&options(ignore, extensions)).unwrap()
}

#[test]
fn without_rules_everything_is_eligible() {
    let all = filter(&[], &[]);
    assert!(all.is_eligible(b"a.txt", false));
    assert!(all.is_eligible(b"README", false));
    assert!(all.is_eligible(b"src", true));
    assert!(all.is_eligible(b"", false));
}

#[test]
fn extension_filter_on_files() {
    let txt = filter(&[], &["txt"]);
    assert!(txt.is_eligible(b"a.txt", false));
    assert!(!txt.is_eligible(b"a.md", false));
    assert!(!txt.is_eligible(b"README", false));
    assert!(!txt.is_eligible(b"a.TXT", false));
    assert!(!txt.is_eligible(b"a.txt.bak", false));
    assert!(!txt.is_eligible(b".txt", false));
    assert!(!txt.is_eligible(b"txt", false));
    assert!(txt.is_eligible(b"dir.d/a.txt", false));
}

#[test]
fn extension_filter_lets_plain_directories_pass() {
    let txt = filter(&[], &["txt"]);
    assert!(txt.is_eligible(b"docs", true));
    assert!(txt.is_eligible(b"a/.git", true));
    assert!(!txt.is_eligible(b"docs.old", true));
    assert!(txt.is_eligible(b"docs.txt", true));
    assert!(txt.is_eligible(b"docs/", true));
    assert!(!txt.is_eligible(b"docs.old/", true));
}

#[test]
fn extension_filter_with_several_extensions() {
    let source = filter(&[], &["rs", "toml"]);
    assert!(source.is_eligible(b"src/lib.rs", false));
    assert!(source.is_eligible(b"Cargo.toml", false));
    assert!(!source.is_eligible(b"Cargo.lock", false));
}

#[test]
fn ignore_patterns_apply_to_the_whole_path() {
    let f = filter(&["*.md", "target/**"], &[]);
    assert!(!f.is_eligible(b"README.md", false));
    assert!(!f.is_eligible(b"docs/deep/notes.md", false));
    assert!(f.is_eligible(b"docs/notes.txt", false));
    assert!(!f.is_eligible(b"target/debug", true));
    assert!(!f.is_eligible(b"target/debug/app", false));
    assert!(f.is_eligible(b"src/target.rs", false));
}

#[test]
fn ignore_pattern_for_a_directory_name() {
    let f = filter(&["**/node_modules"], &[]);
    assert!(!f.is_eligible(b"node_modules", true));
    assert!(!f.is_eligible(b"web/node_modules", true));
    assert!(f.is_eligible(b"web/modules", true));
}

#[test]
fn any_one_pattern_is_enough() {
    let f = filter(&["*.csv", "*.md"], &[]);
    let g = filter(&["*.md", "*.csv"], &[]);
    for path in ["a.csv", "a.md", "a.txt", "d/a.csv"] {
        assert_eq!(f.is_eligible(path.as_bytes(), false), g.is_eligible(path.as_bytes(), false));
    }
    assert!(!f.is_eligible(b"a.csv", false));
    assert!(!f.is_eligible(b"a.md", false));
    assert!(f.is_eligible(b"a.txt", false));
}

#[test]
fn malformed_pattern_is_passed_over() {
    let f = filter(&["[unclosed", "*.md", "{a,b"], &[]);
    assert!(!f.is_eligible(b"a.md", false));
    assert!(f.is_eligible(b"[unclosed", false));
    assert!(f.is_eligible(b"a", false));
    let only_bad = filter(&["[unclosed"], &["txt"]);
    assert!(only_bad.is_eligible(b"a.txt", false));
    assert!(!only_bad.is_eligible(b"a.md", false));
}

#[test]
fn ignore_patterns_and_extensions_both_apply() {
    let f = filter(&["test_*"], &["py"]);
    assert!(f.is_eligible(b"main.py", false));
    assert!(!f.is_eligible(b"test_main.py", false));
    assert!(!f.is_eligible(b"main.rs", false));
}

#[test]
fn hidden_entries_are_skipped_unless_asked_for() {
    let mut opts = options(&[], &[]);
    let settings = opts.walk_settings();
    assert!(settings.skip_hidden);
    assert!(settings.use_gitignore);
    assert!(!settings.require_git);
    opts.include_hidden = true;
    opts.ignore_gitignore = true;
    let settings = opts.walk_settings();
    assert!(!settings.skip_hidden);
    assert!(!settings.use_gitignore);
    assert!(!settings.require_git);
}

#[test]
fn list_of_byte_strings_is_searched_byte_for_byte() {
    let list = vec![b"txt".to_vec(), b"".to_vec(), b"md".to_vec()];
    assert!(contains_bytes(&list, b"txt"));
    assert!(contains_bytes(&list, b""));
    assert!(contains_bytes(&list, b"md"));
    assert!(!contains_bytes(&list, b"tx"));
    assert!(!contains_bytes(&list, b"MD"));
    assert!(!contains_bytes(&Vec::new(), b""));
}

#[test]
fn file_name_is_the_last_component() {
    assert_eq!(file_name_of(b"a/b/c.txt"), b"c.txt");
    assert_eq!(file_name_of(b"c.txt"), b"c.txt");
    assert_eq!(file_name_of(b"/c"), b"c");
    assert_eq!(file_name_of(b"a/b/"), b"b");
    assert_eq!(file_name_of(b"a/b///"), b"b");
    assert_eq!(file_name_of(b"a/b/."), b"b");
    assert_eq!(file_name_of(b"a/b/./"), b"b");
    assert_eq!(file_name_of(b"a/b."), b"b.");
    assert_eq!(file_name_of(b"a/.."), b"..");
    assert_eq!(file_name_of(b"/"), b"");
    assert_eq!(file_name_of(b"/."), b"");
    assert_eq!(file_name_of(b"."), b".");
    assert_eq!(file_name_of(b""), b"");
}

#[test]
fn extension_is_what_follows_the_last_dot() {
    assert_eq!(extension_of(b"a/b/c.txt"), Some(&b"txt"[..]));
    assert_eq!(extension_of(b"archive.tar.gz"), Some(&b"gz"[..]));
    assert_eq!(extension_of(b"a.b/c"), None);
    assert_eq!(extension_of(b"README"), None);
    assert_eq!(extension_of(b".profile"), None);
    assert_eq!(extension_of(b"d/.profile"), None);
    assert_eq!(extension_of(b".a.b"), Some(&b"b"[..]));
    assert_eq!(extension_of(b"name."), Some(&b""[..]));
    assert_eq!(extension_of(b".."), None);
    assert_eq!(extension_of(b"a/.."), None);
    assert_eq!(extension_of(b"..."), Some(&b""[..]));
    assert_eq!(extension_of(b"."), None);
    assert_eq!(extension_of(b""), None);
    assert_eq!(extension_of(b"a/"), None);
    assert_eq!(extension_of(b"a.py/"), Some(&b"py"[..]));
    assert_eq!(extension_of(b"a.py//"), Some(&b"py"[..]));
    assert_eq!(extension_of(b"a.py/."), Some(&b"py"[..]));
    assert_eq!(extension_of(b"d/a.py/./"), Some(&b"py"[..]));
    assert_eq!(extension_of(b"a.py/.."), None);
    assert_eq!(extension_of(b"/"), None);
}

#[test]
fn language_of_known_extensions() {
    let table = [
        ("c", "c"),
        ("cpp", "cpp"),
        ("css", "css"),
        ("html", "html"),
        ("java", "java"),
        ("js", "javascript"),
        ("json", "json"),
        ("py", "python"),
        ("rb", "ruby"),
        ("sh", "bash"),
        ("ts", "typescript"),
        ("xml", "xml"),
        ("yaml", "yaml"),
        ("yml", "yaml"),
    ];
    for (extension, language) in table {
        let path = format!("dir/file.{}", extension);
        assert_eq!(path_to_markdown_language(path.as_bytes()), language.as_bytes().to_vec());
    }
}

#[test]
fn language_of_other_paths() {
    assert_eq!(path_to_markdown_language(b"src/main.rs"), b"rs".to_vec());
    assert_eq!(path_to_markdown_language(b"a.PY"), b"PY".to_vec());
    assert_eq!(path_to_markdown_language(b"Makefile"), b"plaintext".to_vec());
    assert_eq!(path_to_markdown_language(b".gitignore"), b"plaintext".to_vec());
    assert_eq!(path_to_markdown_language(b"a.py/b"), b"plaintext".to_vec());
    assert_eq!(path_to_markdown_language(b"a.py/"), b"python".to_vec());
    assert_eq!(path_to_markdown_language(b"name."), b"".to_vec());
}

#[test]
fn ignored_entry_is_out_whatever_its_extension() {
    let txt = vec![b"txt".to_vec()];
    let none: Vec<Vec<u8>> = Vec::new();
    assert!(!decide(true, &txt, b"a.txt", false));
    assert!(!decide(true, &none, b"a.txt", false));
    assert!(!decide(true, &none, b"dir", true));
    assert!(decide(false, &txt, b"a.txt", false));
    assert!(!decide(false, &txt, b"a.md", false));
    assert!(!decide(false, &txt, b"README", false));
    assert!(decide(false, &txt, b"dir", true));
    assert!(decide(false, &none, b"README", false));
}
