use crate::strutil::{file_name_of, spec_file_name, str_eq, views_of};
use vstd::prelude::*;

verus! {

/// Data describing the file extensions and filenames for a given
/// syntax tag.  For instance: tag "rust" claims the extension ".rs".
pub struct LanguageData {
    /// File extensions (e.g. ".rs", ".py"), written with their
    /// leading dot, that map to the tag.
    pub extensions: Vec<String>,
    /// Exact filenames (e.g. "Dockerfile", "Makefile") that map to
    /// the tag.
    pub filenames: Vec<String>,
}

/// The view of one table entry: tag, extensions, filenames.
pub open spec fn entry_view(e: (String, LanguageData)) -> (Seq<char>, Seq<Seq<char>>, Seq<
    Seq<char>,
>) {
    (e.0@, views_of(e.1.extensions@), views_of(e.1.filenames@))
}

/// The views of a whole entry list.
pub open spec fn entries_view(s: Seq<(String, LanguageData)>) -> Seq<
    (Seq<char>, Seq<Seq<char>>, Seq<Seq<char>>),
> {
    s.map_values(|e: (String, LanguageData)| entry_view(e))
}

/// The built-in mapping data: each tag with its extensions and
/// filenames.
pub open spec fn spec_entries() -> Seq<(Seq<char>, Seq<Seq<char>>, Seq<Seq<char>>)> {
    seq![
        ("rust"@, seq![".rs"@], Seq::<Seq<char>>::empty()),
        ("python"@, seq![".py"@], Seq::<Seq<char>>::empty()),
        ("markdown"@, seq![".md"@, ".markdown"@], seq!["README"@]),
        ("javascript"@, seq![".js"@], Seq::<Seq<char>>::empty()),
        ("typescript"@, seq![".ts"@], Seq::<Seq<char>>::empty()),
        ("json"@, seq![".json"@], Seq::<Seq<char>>::empty()),
        ("toml"@, seq![".toml"@], Seq::<Seq<char>>::empty()),
        ("yaml"@, seq![".yaml"@, ".yml"@], Seq::<Seq<char>>::empty()),
        ("html"@, seq![".html"@, ".htm"@], Seq::<Seq<char>>::empty()),
        ("css"@, seq![".css"@], Seq::<Seq<char>>::empty()),
        ("c"@, seq![".c"@, ".h"@], Seq::<Seq<char>>::empty()),
        ("cpp"@, seq![".cpp"@, ".hpp"@, ".cc"@], Seq::<Seq<char>>::empty()),
        ("go"@, seq![".go"@], Seq::<Seq<char>>::empty()),
        ("java"@, seq![".java"@], Seq::<Seq<char>>::empty()),
        ("ruby"@, seq![".rb"@], Seq::<Seq<char>>::empty()),
        ("shell"@, seq![".sh"@, ".bash"@], Seq::<Seq<char>>::empty()),
        ("dockerfile"@, Seq::<Seq<char>>::empty(), seq!["Dockerfile"@]),
        ("makefile"@, Seq::<Seq<char>>::empty(), seq!["Makefile"@]),
        ("text"@, seq![".txt"@], Seq::<Seq<char>>::empty()),
    ]
}

/// An empty string list.
fn str_vec0() -> (v: Vec<String>)
    ensures
        views_of(v@) =~= Seq::<Seq<char>>::empty(),
{
    Vec::new()
}

/// A one-string list.
fn str_vec1(a: &str) -> (v: Vec<String>)
    ensures
        views_of(v@) =~= seq![a@],
{
    let mut v: Vec<String> = Vec::new();
    v.push(a.to_owned());
    v
}

/// A two-string list.
fn str_vec2(a: &str, b: &str) -> (v: Vec<String>)
    ensures
        views_of(v@) =~= seq![a@, b@],
{
    let mut v: Vec<String> = Vec::new();
    v.push(a.to_owned());
    v.push(b.to_owned());
    v
}

/// A three-string list.
fn str_vec3(a: &str, b: &str, c: &str) -> (v: Vec<String>)
    ensures
        views_of(v@) =~= seq![a@, b@, c@],
{
    let mut v: Vec<String> = Vec::new();
    v.push(a.to_owned());
    v.push(b.to_owned());
    v.push(c.to_owned());
    v
}

/// Append one tag with its extension and filename lists.
fn push_entry(
    out: &mut Vec<(String, LanguageData)>,
    tag: &str,
    exts: Vec<String>,
    names: Vec<String>,
)
    ensures
        entries_view(final (out)@) =~= entries_view(old(out)@).push(
            (tag@, views_of(exts@), views_of(names@)),
        ),
{
    let ghost pre = out@;
    let tag_s = tag.to_owned();
    let ghost ev = views_of(exts@);
    let ghost nv = views_of(names@);
    out.push((tag_s, LanguageData { extensions: exts, filenames: names }));
    proof {
        assert(entries_view(out@) =~= entries_view(pre).push((tag@, ev, nv)));
    }
}

/// The built-in table, tag by tag, as data.
pub fn language_entries() -> (r: Vec<(String, LanguageData)>)
    ensures
        entries_view(r@) =~= spec_entries(),
{
    let mut out: Vec<(String, LanguageData)> = Vec::new();
    push_entry(&mut out, "rust", str_vec1(".rs"), str_vec0());
    push_entry(&mut out, "python", str_vec1(".py"), str_vec0());
    push_entry(&mut out, "markdown", str_vec2(".md", ".markdown"), str_vec1("README"));
    push_entry(&mut out, "javascript", str_vec1(".js"), str_vec0());
    push_entry(&mut out, "typescript", str_vec1(".ts"), str_vec0());
    push_entry(&mut out, "json", str_vec1(".json"), str_vec0());
    push_entry(&mut out, "toml", str_vec1(".toml"), str_vec0());
    push_entry(&mut out, "yaml", str_vec2(".yaml", ".yml"), str_vec0());
    push_entry(&mut out, "html", str_vec2(".html", ".htm"), str_vec0());
    push_entry(&mut out, "css", str_vec1(".css"), str_vec0());
    push_entry(&mut out, "c", str_vec2(".c", ".h"), str_vec0());
    push_entry(&mut out, "cpp", str_vec3(".cpp", ".hpp", ".cc"), str_vec0());
    push_entry(&mut out, "go", str_vec1(".go"), str_vec0());
    push_entry(&mut out, "java", str_vec1(".java"), str_vec0());
    push_entry(&mut out, "ruby", str_vec1(".rb"), str_vec0());
    push_entry(&mut out, "shell", str_vec2(".sh", ".bash"), str_vec0());
    push_entry(&mut out, "dockerfile", str_vec0(), str_vec1("Dockerfile"));
    push_entry(&mut out, "makefile", str_vec0(), str_vec1("Makefile"));
    push_entry(&mut out, "text", str_vec1(".txt"), str_vec0());
    proof {
        assert(entries_view(out@) =~= spec_entries());
    }
    out
}

/// `s` with every leading '.' removed.
pub open spec fn spec_trim_dots(s: Seq<char>) -> Seq<char>
    decreases s.len(),
{
    if s.len() > 0 && s[0] == '.' {
        spec_trim_dots(s.skip(1))
    } else {
        s
    }
}

/// Remove the leading dots of `s`.
fn trim_dots(s: &str) -> (r: String)
    ensures
        r@ == spec_trim_dots(s@),
{
    let len = s.unicode_len();
    let mut i: usize = 0;
    proof {
        assert(s@.skip(0) =~= s@);
    }
    while i < len
        invariant
            i <= len,
            len == s@.len(),
            spec_trim_dots(s@) == spec_trim_dots(s@.skip(i as int)),
        decreases len - i,
    {
        if s.get_char(i) != '.' {
            let r = s.substring_char(i, len).to_owned();
            proof {
                assert(r@ =~= s@.skip(i as int));
            }
            return r;
        }
        proof {
            assert(s@.skip(i as int).skip(1) =~= s@.skip(i + 1));
        }
        i = i + 1;
    }
    proof {
        assert(s@.skip(len as int) =~= Seq::<char>::empty());
    }
    String::new()
}

/// The key-to-tag pairs one entry contributes: its extensions with
/// their dots trimmed, then its filenames, each with the tag.
pub open spec fn pairs_of_entry(e: (Seq<char>, Seq<Seq<char>>, Seq<Seq<char>>)) -> Seq<
    (Seq<char>, Seq<char>),
> {
    e.1.map_values(|x: Seq<char>| (spec_trim_dots(x), e.0)) + e.2.map_values(
        |n: Seq<char>| (n, e.0),
    )
}

/// The key-to-tag pairs of a whole entry list, in order.
pub open spec fn spec_lookup_pairs(entries: Seq<(Seq<char>, Seq<Seq<char>>, Seq<Seq<char>>)>) -> Seq<
    (Seq<char>, Seq<char>),
>
    decreases entries.len(),
{
    if entries.len() == 0 {
        Seq::<(Seq<char>, Seq<char>)>::empty()
    } else {
        spec_lookup_pairs(entries.drop_last()) + pairs_of_entry(entries.last())
    }
}

/// The views of a pair list.
pub open spec fn pairs_view(s: Seq<(String, String)>) -> Seq<(Seq<char>, Seq<char>)> {
    s.map_values(|p: (String, String)| (p.0@, p.1@))
}

/// Flatten the entry list into a key-to-tag lookup table: every
/// extension, trimmed of its leading dots, and every filename maps
/// to its entry's tag.
pub fn build_lookup(entries: &Vec<(String, LanguageData)>) -> (t: Vec<(String, String)>)
    ensures
        pairs_view(t@) =~= spec_lookup_pairs(entries_view(entries@)),
{
    let ghost ev = entries_view(entries@);
    let mut out: Vec<(String, String)> = Vec::new();
    let mut i: usize = 0;
    proof {
        assert(ev.take(0) =~= Seq::<(Seq<char>, Seq<Seq<char>>, Seq<Seq<char>>)>::empty());
        assert(pairs_view(out@) =~= spec_lookup_pairs(ev.take(0)));
    }
    while i < entries.len()
        invariant
            i <= entries@.len(),
            ev == entries_view(entries@),
            pairs_view(out@) =~= spec_lookup_pairs(ev.take(i as int)),
        decreases entries@.len() - i,
    {
        let ghost e = ev[i as int];
        let ghost base = pairs_view(out@);
        let mut j: usize = 0;
        let nexts = entries[i].1.extensions.len();
        while j < nexts
            invariant
                j <= nexts,
                i < entries@.len(),
                nexts == entries@[i as int].1.extensions@.len(),
                ev == entries_view(entries@),
                e == ev[i as int],
                base == pairs_view(out@).take(base.len() as int),
                pairs_view(out@) =~= base + e.1.take(j as int).map_values(
                    |x: Seq<char>| (spec_trim_dots(x), e.0),
                ),
            decreases nexts - j,
        {
            let ghost prev = pairs_view(out@);
            let key = trim_dots(entries[i].1.extensions[j].as_str());
            let tag = entries[i].0.clone();
            out.push((key, tag));
            proof {
                assert(e.1[j as int] == entries@[i as int].1.extensions@[j as int]@);
                assert(pairs_view(out@) =~= prev.push((spec_trim_dots(e.1[j as int]), e.0)));
                assert(e.1.take(j + 1).map_values(|x: Seq<char>| (spec_trim_dots(x), e.0)) =~= e.1
                    .take(j as int).map_values(|x: Seq<char>| (spec_trim_dots(x), e.0)).push(
                    (spec_trim_dots(e.1[j as int]), e.0),
                ));
                assert(prev.take(base.len() as int) =~= base);
            }
            j = j + 1;
        }
        proof {
            assert(e.1.take(e.1.len() as int) =~= e.1);
        }
        let mut j2: usize = 0;
        let nnames = entries[i].1.filenames.len();
        while j2 < nnames
            invariant
                j2 <= nnames,
                i < entries@.len(),
                nnames == entries@[i as int].1.filenames@.len(),
                ev == entries_view(entries@),
                e == ev[i as int],
                base == pairs_view(out@).take(base.len() as int),
                pairs_view(out@) =~= base + e.1.map_values(
                    |x: Seq<char>| (spec_trim_dots(x), e.0),
                ) + e.2.take(j2 as int).map_values(|n: Seq<char>| (n, e.0)),
            decreases nnames - j2,
        {
            let ghost prev = pairs_view(out@);
            let key = entries[i].1.filenames[j2].clone();
            let tag = entries[i].0.clone();
            out.push((key, tag));
            proof {
                assert(e.2[j2 as int] == entries@[i as int].1.filenames@[j2 as int]@);
                assert(pairs_view(out@) =~= prev.push((e.2[j2 as int], e.0)));
                assert(e.2.take(j2 + 1).map_values(|n: Seq<char>| (n, e.0)) =~= e.2.take(
                    j2 as int,
                ).map_values(|n: Seq<char>| (n, e.0)).push((e.2[j2 as int], e.0)));
                assert(prev.take(base.len() as int) =~= base);
            }
            j2 = j2 + 1;
        }
        proof {
            assert(e.2.take(e.2.len() as int) =~= e.2);
            assert(ev.take(i + 1).drop_last() =~= ev.take(i as int));
            assert(ev.take(i + 1).last() == e);
            assert(pairs_view(out@) =~= base + pairs_of_entry(e));
            assert(pairs_view(out@) =~= spec_lookup_pairs(ev.take(i + 1)));
        }
        i = i + 1;
    }
    proof {
        assert(ev.take(ev.len() as int) =~= ev);
    }
    out
}

/// The tag of the first pair whose key is `key`, if any.
pub open spec fn spec_lookup(table: Seq<(Seq<char>, Seq<char>)>, key: Seq<char>) -> Option<
    Seq<char>,
>
    decreases table.len(),
{
    if table.len() == 0 {
        Option::None
    } else if table[0].0 == key {
        Option::Some(table[0].1)
    } else {
        spec_lookup(table.skip(1), key)
    }
}

/// Look `key` up in the table, first match wins.
fn lookup(table: &Vec<(String, String)>, key: &str) -> (r: Option<String>)
    ensures
        match r {
            Option::Some(t) => spec_lookup(pairs_view(table@), key@) == Option::Some(t@),
            Option::None => spec_lookup(pairs_view(table@), key@) is None,
        },
{
    let ghost tv = pairs_view(table@);
    let mut i: usize = 0;
    proof {
        assert(tv.skip(0) =~= tv);
    }
    while i < table.len()
        invariant
            i <= table@.len(),
            tv == pairs_view(table@),
            spec_lookup(tv, key@) == spec_lookup(tv.skip(i as int), key@),
        decreases table@.len() - i,
    {
        if str_eq(table[i].0.as_str(), key) {
            let t = table[i].1.clone();
            proof {
                assert(tv.skip(i as int)[0] == tv[i as int]);
            }
            return Option::Some(t);
        }
        proof {
            assert(tv.skip(i as int)[0] == tv[i as int]);
            assert(tv.skip(i as int).skip(1) =~= tv.skip(i + 1));
        }
        i = i + 1;
    }
    proof {
        assert(tv.skip(table@.len() as int) =~= Seq::<(Seq<char>, Seq<char>)>::empty());
    }
    Option::None
}

/// The position of the last '.' in `s`, if any.
pub open spec fn spec_last_dot(s: Seq<char>) -> Option<int>
    decreases s.len(),
{
    if s.len() == 0 {
        Option::None
    } else if s[s.len() - 1] == '.' {
        Option::Some(s.len() - 1)
    } else {
        spec_last_dot(s.take(s.len() - 1))
    }
}

/// The extension of a file name: what follows its last '.', provided
/// something precedes that dot.  A name with no dot, or only a
/// leading one, has none.
pub open spec fn spec_extension(name: Seq<char>) -> Option<Seq<char>> {
    match spec_last_dot(name) {
        Option::Some(i) => if i > 0 {
            Option::Some(name.skip(i + 1))
        } else {
            Option::None
        },
        Option::None => Option::None,
    }
}

/// The extension of a file name, if it has one.
fn extension_of(name: &str) -> (r: Option<String>)
    ensures
        match r {
            Option::Some(e) => spec_extension(name@) == Option::Some(e@),
            Option::None => spec_extension(name@) is None,
        },
{
    let len = name.unicode_len();
    let mut j: usize = len;
    proof {
        assert(name@.take(len as int) =~= name@);
    }
    while j > 0
        invariant
            j <= len,
            len == name@.len(),
            spec_last_dot(name@) == spec_last_dot(name@.take(j as int)),
        decreases j,
    {
        if name.get_char(j - 1) == '.' {
            if j - 1 == 0 {
                return Option::None;
            }
            let e = name.substring_char(j, len).to_owned();
            proof {
                assert(e@ =~= name@.skip(j as int));
            }
            return Option::Some(e);
        }
        proof {
            assert(name@.take(j as int).take(j - 1) =~= name@.take(j - 1));
        }
        j = j - 1;
    }
    proof {
        assert(name@.take(0) =~= Seq::<char>::empty());
    }
    Option::None
}

/// The syntax tag for a path: the tag its extension maps to, else
/// the tag its file name maps to, else "text".
pub open spec fn spec_detect_language(p: Seq<char>) -> Seq<char> {
    let table = spec_lookup_pairs(spec_entries());
    match spec_file_name(p) {
        Option::None => "text"@,
        Option::Some(n) => {
            let by_ext = match spec_extension(n) {
                Option::Some(e) => spec_lookup(table, e),
                Option::None => Option::None,
            };
            match by_ext {
                Option::Some(t) => t,
                Option::None => match spec_lookup(table, n) {
                    Option::Some(t) => t,
                    Option::None => "text"@,
                },
            }
        },
    }
}

/// Detect the syntax tag for the given path based on its file
/// extension or full file name.  If no mapping is known, the
/// fallback tag "text" comes back.
pub fn detect_language(path: &str) -> (r: String)
    ensures
        r@ == spec_detect_language(path@),
{
    let entries = language_entries();
    let table = build_lookup(&entries);
    let name = match file_name_of(path) {
        Option::Some(n) => n,
        Option::None => {
            let s: String = String::from_str("text");
            return s;
        },
    };
    match extension_of(name.as_str()) {
        Option::Some(e) => match lookup(&table, e.as_str()) {
            Option::Some(t) => {
                return t;
            },
            Option::None => {},
        },
        Option::None => {},
    }
    match lookup(&table, name.as_str()) {
        Option::Some(t) => t,
        Option::None => {
            let s: String = String::from_str("text");
            s
        },
    }
}

} // verus!
