use copycat::{collect_tree, render_tree, TreeNode};

fn comps(parts: &[&str]) -> Vec<String> {
    parts.iter().map(|p| p.to_string()).collect()
}

#[test]
fn test_empty_dir() {
    let dir = tempfile::tempdir().unwrap();
    let root = dir.path().to_str().unwrap().to_string();
    let tree = collect_tree(&root, &Vec::new(), true).unwrap();
    let root_name = dir.path().file_name().unwrap().to_str().unwrap();
    assert_eq!(tree, format!("{}\n", root_name));
}

#[test]
fn single_leaf_render() {
    let mut root = TreeNode::new("root".to_string());
    root.insert(&comps(&["foo.txt"]));
    let out = render_tree(&root);
    assert_eq!(out, "root\n└── foo.txt\n");
}

#[test]
fn nested_dirs_sorted_render() {
    let mut root = TreeNode::new("root".to_string());
    root.insert(&comps(&["a", "b", "file2.rs"]));
    root.insert(&comps(&["a", "file1.rs"]));
    root.sort();
    let expected = format!(
        "{root}\n\
└── a\n\
{i}├── b\n\
{i}│   └── file2.rs\n\
{i}└── file1.rs\n",
        root = "root",
        i = "    "
    );
    assert_eq!(render_tree(&root), expected);
}

#[test]
fn sibling_connectors() {
    let mut root = TreeNode::new("r".to_string());
    root.insert(&comps(&["a.txt"]));
    root.insert(&comps(&["b.txt"]));
    root.insert(&comps(&["c.txt"]));
    let out = render_tree(&root);
    assert_eq!(out, "r\n├── a.txt\n├── b.txt\n└── c.txt\n");
}

#[test]
fn insertion_reuses_existing_directories() {
    let mut root = TreeNode::new("r".to_string());
    root.insert(&comps(&["a", "x.rs"]));
    root.insert(&comps(&["a", "y.rs"]));
    let out = render_tree(&root);
    assert_eq!(out, "r\n└── a\n    ├── x.rs\n    └── y.rs\n");
}

#[test]
fn insertion_order_insensitive_after_sort() {
    let mut t1 = TreeNode::new("r".to_string());
    t1.insert(&comps(&["a", "x.rs"]));
    t1.insert(&comps(&["b", "y.rs"]));
    t1.insert(&comps(&["a", "z.rs"]));
    t1.sort();
    let mut t2 = TreeNode::new("r".to_string());
    t2.insert(&comps(&["a", "z.rs"]));
    t2.insert(&comps(&["b", "y.rs"]));
    t2.insert(&comps(&["a", "x.rs"]));
    t2.sort();
    assert_eq!(render_tree(&t1), render_tree(&t2));
}

#[test]
fn fmt_prefix_and_branch_glyphs() {
    let node = TreeNode::new("leaf".to_string());
    assert_eq!(node.fmt("    ", true), "    └── leaf\n");
    assert_eq!(node.fmt("", false), "├── leaf\n");
}

#[test]
fn tree_root_with_trailing_separator() {
    let dir = tempfile::tempdir().unwrap();
    let _file = tempfile::Builder::new()
        .prefix("foo.txt")
        .rand_bytes(0)
        .tempfile_in(dir.path())
        .unwrap();
    let root = format!("{}/", dir.path().to_str().unwrap());
    let tree = collect_tree(&root, &Vec::new(), true).unwrap();
    let root_name = dir.path().file_name().unwrap().to_str().unwrap();
    assert_eq!(tree, format!("{}\n└── foo.txt\n", root_name));
}
