use crate::language::spec_detect_language;
use crate::strutil::{rel_path, spec_is_under, spec_rel_path, str_eq};
use vstd::prelude::*;

verus! {

/// One file handed to the bundler: its full path and the outcome of
/// reading it.  A file whose read failed carries no contents and is
/// skipped.
pub struct FileEntry {
    pub path: String,
    pub contents: Option<String>,
}

/// The path shown for a file: relative to `root` when it lies under
/// it, else the full path.
pub open spec fn spec_display_rel(root: Seq<char>, p: Seq<char>) -> Seq<char> {
    if spec_is_under(root, p) {
        spec_rel_path(root, p)
    } else {
        p
    }
}

/// The bundled form of one readable file: a heading with its shown
/// path, then its contents — inlined for the markdown tag, fenced
/// and tagged otherwise.
pub open spec fn spec_section(root: Seq<char>, path: Seq<char>, contents: Seq<char>) -> Seq<char> {
    let rel = spec_display_rel(root, path);
    let lang = spec_detect_language(path);
    "### `"@ + rel + "`\n\n"@ + (if lang == "markdown"@ {
        contents + "\n\n"@
    } else {
        "```"@ + lang + "\n"@ + contents + "\n```\n\n"@
    })
}

/// The bundled document: the sections of the readable files, in the
/// list's order; files without contents contribute nothing.
pub open spec fn spec_markdown(root: Seq<char>, files: Seq<FileEntry>) -> Seq<char>
    decreases files.len(),
{
    if files.len() == 0 {
        Seq::<char>::empty()
    } else {
        spec_markdown(root, files.drop_last()) + (match files.last().contents {
            Option::Some(c) => spec_section(root, files.last().path@, c@),
            Option::None => Seq::<char>::empty(),
        })
    }
}

/// Generate a Markdown document from the given files and their read
/// contents, each readable one under a heading with its path
/// relative to `root` (trailing separators on the root are
/// ignored), fenced by its detected syntax tag unless that tag is
/// the markdown tag itself.  Files whose read failed are skipped.
/// An empty list yields the empty string.
pub fn generate_markdown(root: &str, files: &Vec<FileEntry>) -> (r: String)
    ensures
        r@ == spec_markdown(crate::strutil::spec_trim_slashes(root@), files@),
{
    let rn = crate::strutil::trim_trailing_slashes(root);
    let ghost rv = crate::strutil::spec_trim_slashes(root@);
    let mut out = String::new();
    let mut i: usize = 0;
    proof {
        assert(files@.take(0) =~= Seq::<FileEntry>::empty());
    }
    while i < files.len()
        invariant
            i <= files@.len(),
            rn@ == rv,
            rv == crate::strutil::spec_trim_slashes(root@),
            out@ == spec_markdown(rv, files@.take(i as int)),
        decreases files@.len() - i,
    {
        let ghost pre = out@;
        match &files[i].contents {
            Option::Some(c) => {
                let rel = match rel_path(rn.as_str(), files[i].path.as_str()) {
                    Option::Some(s) => s,
                    Option::None => files[i].path.clone(),
                };
                let lang = crate::language::detect_language(files[i].path.as_str());
                out.append("### `");
                out.append(rel.as_str());
                out.append("`\n\n");
                if str_eq(lang.as_str(), "markdown") {
                    out.append(c.as_str());
                    out.append("\n\n");
                } else {
                    out.append("```");
                    out.append(lang.as_str());
                    out.append("\n");
                    out.append(c.as_str());
                    out.append("\n```\n\n");
                }
                proof {
                    assert(rel@ == spec_display_rel(rv, files@[i as int].path@));
                    assert(out@ == pre + spec_section(rv, files@[i as int].path@, c@));
                }
            },
            Option::None => {},
        }
        proof {
            assert(files@.take(i + 1).drop_last() =~= files@.take(i as int));
            assert(files@.take(i + 1).last() == files@[i as int]);
            assert(out@ == spec_markdown(rv, files@.take(i + 1)));
        }
        i = i + 1;
    }
    proof {
        assert(files@.take(files@.len() as int) =~= files@);
    }
    out
}

} // verus!
