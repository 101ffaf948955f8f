use copycat::{generate_markdown, FileEntry};

fn entry(path: &str, contents: &str) -> FileEntry {
    FileEntry {
        path: path.to_string(),
        contents: Some(contents.to_string()),
    }
}

#[test]
fn test_generate_markdown_single_file() {
    let files = vec![entry("root/hello.rs", "fn main() { println!(\"Hello\"); }\n")];
    let md_output = generate_markdown("root", &files);
    assert!(md_output.contains("### `hello.rs`"));
    assert!(md_output.contains("```rust"));
    assert!(md_output.contains("fn main()"));
}

#[test]
fn test_generate_markdown_with_markdown_file() {
    let files = vec![entry("root/README.md", "# Hello Markdown\n")];
    let md_output = generate_markdown("root", &files);
    assert!(md_output.contains("### `README.md`"));
    assert!(md_output.contains("# Hello Markdown"));
    assert!(!md_output.contains("```markdown"));
}

#[test]
fn test_generate_markdown_empty_files() {
    let files: Vec<FileEntry> = vec![];
    let md_output = generate_markdown("root", &files);
    assert!(md_output.is_empty());
}

#[test]
fn test_generate_markdown_skips_unreadable_file() {
    let files = vec![
        entry("root/ok.rs", "fn main() { println!(\"ok\"); }\n"),
        FileEntry {
            path: "root/missing.rs".to_string(),
            contents: None,
        },
    ];
    let md_output = generate_markdown("root", &files);
    assert!(md_output.contains("### `ok.rs`"));
    assert!(!md_output.contains("### `missing.rs`"));
}

#[test]
fn generate_markdown_exact_output() {
    let files = vec![entry("root/a.py", "print(1)\n")];
    let md_output = generate_markdown("root", &files);
    assert_eq!(md_output, "### `a.py`\n\n```python\nprint(1)\n\n```\n\n");
}

#[test]
fn generate_markdown_keeps_list_order() {
    let files = vec![entry("root/b.rs", "b\n"), entry("root/a.rs", "a\n")];
    let md_output = generate_markdown("root", &files);
    let b_at = md_output.find("### `b.rs`").unwrap();
    let a_at = md_output.find("### `a.rs`").unwrap();
    assert!(b_at < a_at);
}

#[test]
fn generate_markdown_foreign_path_shown_whole() {
    let files = vec![entry("elsewhere/x.rs", "x\n")];
    let md_output = generate_markdown("root", &files);
    assert!(md_output.contains("### `elsewhere/x.rs`"));
}

#[test]
fn heading_relative_to_trailing_slash_root() {
    let files = vec![entry("root/sub/a.rs", "a\n")];
    let md_output = generate_markdown("root/", &files);
    assert!(md_output.contains("### `sub/a.rs`"));
}
