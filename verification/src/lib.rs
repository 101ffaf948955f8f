use vstd::prelude::*;

mod files;
mod formatter;
mod language;
mod strutil;
mod tree;

pub use files::{collect_files, discover, CopycatError};
pub use formatter::{generate_markdown, FileEntry};
pub use language::{build_lookup, detect_language, language_entries, LanguageData};
pub use tree::{collect_tree, render_tree, TreeNode};

use formatter::spec_markdown;
use strutil::views_of;
use tree::tree_output_ok;

verus! {

/// Gather the full Markdown bundle of the given files and their read
/// contents.  An empty file list is refused: there is nothing to
/// bundle, and silence would hide it.
pub fn get_contents(root: &str, files: &Vec<FileEntry>) -> (r: Result<String, CopycatError>)
    ensures
        r matches Ok(s) ==> files@.len() > 0 && s@ == spec_markdown(
            strutil::spec_trim_slashes(root@),
            files@,
        ),
        r matches Err(e) ==> e is NoFiles && files@.len() == 0,
        files@.len() == 0 ==> (r matches Err(e) && e is NoFiles),
{
    if files.len() == 0 {
        return Err(CopycatError::NoFiles);
    }
    Ok(generate_markdown(root, files))
}

/// Build an ASCII tree of all collected files and directories.
pub fn get_tree(path: &str, excludes: &Vec<String>, sort: bool) -> (r: Result<
    String,
    CopycatError,
>)
    ensures
        r matches Ok(s) ==> tree_output_ok(
            strutil::spec_trim_slashes(path@),
            views_of(excludes@),
            sort,
            s@,
        ),
        r matches Err(e) ==> !(e is NoFiles),
{
    tree::collect_tree(path, excludes, sort)
}

} // verus!
