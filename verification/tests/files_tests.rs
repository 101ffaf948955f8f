use copycat::{collect_files, discover, get_contents, CopycatError, FileEntry};

#[test]
fn collects_a_single_file_root() {
    let dir = tempfile::tempdir().unwrap();
    let file = tempfile::NamedTempFile::new_in(dir.path()).unwrap();
    let path = file.path().to_str().unwrap().to_string();
    let files = collect_files(&path, &Vec::new(), false).unwrap();
    assert_eq!(files, vec![path]);
}

#[test]
fn single_file_root_ignores_excludes() {
    let dir = tempfile::tempdir().unwrap();
    let file = tempfile::NamedTempFile::new_in(dir.path()).unwrap();
    let path = file.path().to_str().unwrap().to_string();
    let excludes = vec!["**/*".to_string()];
    let files = collect_files(&path, &excludes, false).unwrap();
    assert_eq!(files, vec![path]);
}

#[test]
fn collects_files_from_a_directory() {
    let dir = tempfile::tempdir().unwrap();
    let root = dir.path().to_str().unwrap().to_string();
    let f1 = tempfile::NamedTempFile::new_in(dir.path()).unwrap();
    let f2 = tempfile::NamedTempFile::new_in(dir.path()).unwrap();
    let mut files = collect_files(&root, &Vec::new(), false).unwrap();
    files.sort();
    let mut expected = vec![
        f1.path().to_str().unwrap().to_string(),
        f2.path().to_str().unwrap().to_string(),
    ];
    expected.sort();
    assert_eq!(files, expected);
}

#[test]
fn sorts_files_when_asked() {
    let dir = tempfile::tempdir().unwrap();
    let root = dir.path().to_str().unwrap().to_string();
    let zfile = tempfile::Builder::new()
        .prefix("z")
        .tempfile_in(dir.path())
        .unwrap();
    let afile = tempfile::Builder::new()
        .prefix("a")
        .tempfile_in(dir.path())
        .unwrap();
    let files = collect_files(&root, &Vec::new(), true).unwrap();
    let expected = vec![
        afile.path().to_str().unwrap().to_string(),
        zfile.path().to_str().unwrap().to_string(),
    ];
    assert_eq!(files, expected);
}

#[test]
fn sorted_discovery_is_deterministic() {
    let dir = tempfile::tempdir().unwrap();
    let root = dir.path().to_str().unwrap().to_string();
    let _f1 = tempfile::NamedTempFile::new_in(dir.path()).unwrap();
    let _f2 = tempfile::NamedTempFile::new_in(dir.path()).unwrap();
    let _f3 = tempfile::NamedTempFile::new_in(dir.path()).unwrap();
    let first = collect_files(&root, &Vec::new(), true).unwrap();
    let second = collect_files(&root, &Vec::new(), true).unwrap();
    assert_eq!(first, second);
}

#[test]
fn excludes_files_by_glob_suffix() {
    let dir = tempfile::tempdir().unwrap();
    let root = dir.path().to_str().unwrap().to_string();
    let logs = tempfile::Builder::new().tempdir_in(dir.path()).unwrap();
    let _nested_log = tempfile::Builder::new()
        .suffix(".log")
        .tempfile_in(logs.path())
        .unwrap();
    let _top_log = tempfile::Builder::new()
        .suffix(".log")
        .tempfile_in(dir.path())
        .unwrap();
    let kept = tempfile::Builder::new()
        .suffix(".rs")
        .tempfile_in(dir.path())
        .unwrap();
    let excludes = vec!["**/*.log".to_string()];
    let files = collect_files(&root, &excludes, true).unwrap();
    assert_eq!(files, vec![kept.path().to_str().unwrap().to_string()]);
}

#[test]
fn invalid_pattern_is_a_hard_error() {
    let dir = tempfile::tempdir().unwrap();
    let root = dir.path().to_str().unwrap().to_string();
    let excludes = vec!["a[".to_string()];
    let r = collect_files(&root, &excludes, false);
    assert!(matches!(r, Err(CopycatError::InvalidPattern(_))));
}

#[test]
fn missing_root_is_a_traversal_error() {
    let dir = tempfile::tempdir().unwrap();
    let root = format!("{}/absent-subdir", dir.path().to_str().unwrap());
    let r = collect_files(&root, &Vec::new(), false);
    assert!(matches!(r, Err(CopycatError::Traversal(_))));
}

#[test]
fn empty_file_list_is_refused() {
    let r = get_contents("root", &Vec::<FileEntry>::new());
    assert!(matches!(r, Err(CopycatError::NoFiles)));
}

#[test]
fn hidden_files_are_collected() {
    // NamedTempFile names start with ".tmp", so they are hidden
    // entries; discovery must keep them.
    let dir = tempfile::tempdir().unwrap();
    let root = dir.path().to_str().unwrap().to_string();
    let hidden = tempfile::NamedTempFile::new_in(dir.path()).unwrap();
    let name = hidden
        .path()
        .file_name()
        .unwrap()
        .to_str()
        .unwrap()
        .to_string();
    assert!(name.starts_with('.'));
    let files = collect_files(&root, &Vec::new(), false).unwrap();
    assert_eq!(files, vec![hidden.path().to_str().unwrap().to_string()]);
}

#[test]
fn read_failure_marker_roundtrip() {
    // A file whose read failed is carried as an entry without
    // contents and skipped by the bundler.
    let mut entries = Vec::new();
    entries.push(FileEntry {
        path: "present.rs".to_string(),
        contents: Some("fn main() {}\n".to_string()),
    });
    entries.push(FileEntry {
        path: "missing.rs".to_string(),
        contents: None,
    });
    let md = get_contents("root", &entries).unwrap();
    assert!(md.contains("### `present.rs`"));
    assert!(!md.contains("### `missing.rs`"));
}

#[test]
fn discover_returns_a_file_root_alone() {
    // The is-file verdict alone decides the single-file case: the
    // root comes back untouched, whatever the patterns say.
    let excludes = vec!["**/*".to_string()];
    let files = discover("some/dir/hello.txt", &excludes, true, true).unwrap();
    assert_eq!(files, vec!["some/dir/hello.txt".to_string()]);
}

#[test]
fn root_with_trailing_separator() {
    let dir = tempfile::tempdir().unwrap();
    let file = tempfile::NamedTempFile::new_in(dir.path()).unwrap();
    let root = format!("{}/", dir.path().to_str().unwrap());
    let files = collect_files(&root, &Vec::new(), true).unwrap();
    assert_eq!(files, vec![file.path().to_str().unwrap().to_string()]);
}
