use copycat::{collect_files, collect_tree};
use std::io::Write;
use std::path::Path;

fn named_file(dir: &Path, name: &str) -> tempfile::NamedTempFile {
    tempfile::Builder::new()
        .prefix(name)
        .rand_bytes(0)
        .tempfile_in(dir)
        .unwrap()
}

fn named_dir(dir: &Path, name: &str) -> tempfile::TempDir {
    tempfile::Builder::new()
        .prefix(name)
        .rand_bytes(0)
        .tempdir_in(dir)
        .unwrap()
}

fn path_str(p: &Path) -> String {
    p.to_str().unwrap().to_string()
}

#[test]
fn collects_single_file() {
    let dir = tempfile::tempdir().unwrap();
    let file = named_file(dir.path(), "hello.txt");
    let file_path = path_str(file.path());
    let files = collect_files(&file_path, &Vec::new(), false).unwrap();
    assert_eq!(files, vec![file_path]);
}

#[test]
fn collects_files_from_directory() {
    let dir = tempfile::tempdir().unwrap();
    let f1 = named_file(dir.path(), "a.txt");
    let f2 = named_file(dir.path(), "b.rs");
    let mut files = collect_files(&path_str(dir.path()), &Vec::new(), false).unwrap();
    files.sort();
    let mut expected = vec![path_str(f1.path()), path_str(f2.path())];
    expected.sort();
    assert_eq!(files, expected);
}

#[test]
fn respects_exclude_patterns() {
    let dir = tempfile::tempdir().unwrap();
    let f1 = named_file(dir.path(), "a.txt");
    let _f2 = named_file(dir.path(), "ignore.me");
    let excludes = vec!["ignore.me".to_string()];
    let files = collect_files(&path_str(dir.path()), &excludes, false).unwrap();
    assert_eq!(files, vec![path_str(f1.path())]);
}

#[test]
fn respects_gitignore() {
    let dir = tempfile::tempdir().unwrap();
    let _git = named_dir(dir.path(), ".git");
    let mut gitignore = named_file(dir.path(), ".gitignore");
    gitignore.write_all(b"ignored.rs\n").unwrap();
    let _ignored = named_file(dir.path(), "ignored.rs");
    let kept = named_file(dir.path(), "main.rs");
    let mut files = collect_files(&path_str(dir.path()), &Vec::new(), false).unwrap();
    files.sort();
    assert_eq!(files, vec![path_str(gitignore.path()), path_str(kept.path())]);
}

#[test]
fn respects_combined_gitignore_and_excludes() {
    let dir = tempfile::tempdir().unwrap();
    let _git = named_dir(dir.path(), ".git");
    let mut gitignore = named_file(dir.path(), ".gitignore");
    gitignore.write_all(b"ignored_by_gitignore.rs\n").unwrap();
    let _by_gitignore = named_file(dir.path(), "ignored_by_gitignore.rs");
    let _by_exclude = named_file(dir.path(), "excluded_by_flag.txt");
    let kept = named_file(dir.path(), "main.rs");
    let excludes = vec!["excluded_by_flag.txt".to_string()];
    let mut files = collect_files(&path_str(dir.path()), &excludes, false).unwrap();
    files.sort();
    assert_eq!(files, vec![path_str(gitignore.path()), path_str(kept.path())]);
}

#[test]
fn excludes_files_with_glob_pattern() {
    let dir = tempfile::tempdir().unwrap();
    let logs_dir = named_dir(dir.path(), "logs");
    let _top_log = named_file(dir.path(), "top_level.log");
    let _nested_log = named_file(logs_dir.path(), "error.log");
    let allowed = named_file(dir.path(), "main.rs");
    let excludes = vec!["**/*.log".to_string()];
    let files = collect_files(&path_str(dir.path()), &excludes, true).unwrap();
    assert_eq!(files, vec![path_str(allowed.path())]);
}

#[test]
fn sorts_files_when_requested() {
    let dir = tempfile::tempdir().unwrap();
    let file_a = named_file(dir.path(), "z.rs");
    let file_b = named_file(dir.path(), "a.rs");
    let files = collect_files(&path_str(dir.path()), &Vec::new(), true).unwrap();
    assert_eq!(files, vec![path_str(file_b.path()), path_str(file_a.path())]);
}

#[test]
fn collects_hidden_files_and_dirs() {
    let dir = tempfile::tempdir().unwrap();
    let hidden_file = named_file(dir.path(), ".secret");
    let hidden_dir = named_dir(dir.path(), ".hidden");
    let hidden_dir_file = named_file(hidden_dir.path(), "inside.txt");
    let files = collect_files(&path_str(dir.path()), &Vec::new(), true).unwrap();
    let expected = vec![path_str(hidden_dir_file.path()), path_str(hidden_file.path())];
    assert_eq!(files, expected);
}

#[test]
fn skips_git_directory_contents() {
    let dir = tempfile::tempdir().unwrap();
    let git_dir = named_dir(dir.path(), ".git");
    let _git_file = named_file(git_dir.path(), "config");
    let kept = named_file(dir.path(), "main.rs");
    let files = collect_files(&path_str(dir.path()), &Vec::new(), true).unwrap();
    assert_eq!(files, vec![path_str(kept.path())]);
}

#[test]
fn gitignore_listing_scenario_sorted() {
    // Root holding a.txt, b.rs and a .gitignore that lists b.rs:
    // sorted discovery yields the .gitignore itself and a.txt.
    let dir = tempfile::tempdir().unwrap();
    let _git = named_dir(dir.path(), ".git");
    let a = named_file(dir.path(), "a.txt");
    let _b = named_file(dir.path(), "b.rs");
    let mut gitignore = named_file(dir.path(), ".gitignore");
    gitignore.write_all(b"b.rs\n").unwrap();
    let files = collect_files(&path_str(dir.path()), &Vec::new(), true).unwrap();
    assert_eq!(files, vec![path_str(gitignore.path()), path_str(a.path())]);
}

#[test]
fn test_single_file() {
    let dir = tempfile::tempdir().unwrap();
    let _file = named_file(dir.path(), "foo.txt");
    let root = path_str(dir.path());
    let tree = collect_tree(&root, &Vec::new(), true).unwrap();
    let root_name = dir.path().file_name().unwrap().to_str().unwrap();
    let expected = format!("{}\n└── foo.txt\n", root_name);
    assert_eq!(tree, expected);
}

#[test]
fn test_nested_dirs_sorted() {
    let dir = tempfile::tempdir().unwrap();
    let a_dir = named_dir(dir.path(), "a");
    let b_dir = named_dir(a_dir.path(), "b");
    let _file2 = named_file(b_dir.path(), "file2.rs");
    let _file1 = named_file(a_dir.path(), "file1.rs");
    let root = path_str(dir.path());
    let tree = collect_tree(&root, &Vec::new(), true).unwrap();
    let root_name = dir.path().file_name().unwrap().to_str().unwrap();
    let expected = format!(
        "{root}\n\
└── a\n\
{i}├── b\n\
{i}│   └── file2.rs\n\
{i}└── file1.rs\n",
        root = root_name,
        i = "    "
    );
    assert_eq!(tree, expected);
}

#[test]
fn test_excludes() {
    let dir = tempfile::tempdir().unwrap();
    let _keep = named_file(dir.path(), "keep.rs");
    let _ignore = named_file(dir.path(), "ignore.rs");
    let root = path_str(dir.path());
    let excludes = vec!["ignore.rs".to_string()];
    let tree = collect_tree(&root, &excludes, true).unwrap();
    let root_name = dir.path().file_name().unwrap().to_str().unwrap();
    let expected = format!("{r}\n└── keep.rs\n", r = root_name);
    assert_eq!(tree, expected);
}
