use copycat::{build_lookup, detect_language, language_entries};

#[test]
fn test_detect_rust_extension() {
    assert_eq!(
        detect_language("main.rs"),
        "rust",
        "`.rs` files should return `rust`"
    );
}

#[test]
fn test_detect_python_extension() {
    assert_eq!(
        detect_language("script.py"),
        "python",
        "`.py` files should return `python`"
    );
}

#[test]
fn test_detect_markdown() {
    assert_eq!(
        detect_language("README"),
        "markdown",
        "files named `README.md` should return `markdown`"
    );
}

#[test]
fn test_detect_unknown() {
    assert_eq!(
        detect_language("some.unknownext"),
        "text",
        "unknown extension should fall back to `text`"
    );
}

#[test]
fn detect_uses_full_path() {
    assert_eq!(detect_language("src/deep/dir/main.rs"), "rust");
    assert_eq!(detect_language("docs/README"), "markdown");
}

#[test]
fn detect_markdown_file_extension() {
    assert_eq!(detect_language("notes.md"), "markdown");
}

#[test]
fn detect_dotfile_has_no_extension() {
    assert_eq!(detect_language(".gitignore"), "text");
}

#[test]
fn lookup_table_trims_extension_dots() {
    let entries = language_entries();
    let table = build_lookup(&entries);
    assert_eq!(table[0].0, "rs");
    assert_eq!(table[0].1, "rust");
    assert!(table.iter().any(|p| p.0 == "README" && p.1 == "markdown"));
    assert!(table.iter().all(|p| !p.0.starts_with('.')));
}
