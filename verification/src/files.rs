use crate::strutil::{sort_strings, spec_is_under, spec_trim_slashes, strings_sorted, views_of};
use vstd::prelude::*;

verus! {

// The outside types that discovery works with, declared so that they
// can stand in signatures.  Their values are opaque here.
#[verifier::external_type_specification]
#[verifier::external_body]
pub struct ExIgnoreError(ignore::Error);

#[verifier::external_type_specification]
#[verifier::external_body]
pub struct ExOverride(ignore::overrides::Override);

#[verifier::external_type_specification]
#[verifier::external_body]
pub struct ExOverrideBuilder(ignore::overrides::OverrideBuilder);

/// The globs added to an override builder so far, in order.
pub uninterp spec fn builder_pats(b: ignore::overrides::OverrideBuilder) -> Seq<Seq<char>>;

/// The root path an override builder was created with.
pub uninterp spec fn builder_root(b: ignore::overrides::OverrideBuilder) -> Seq<char>;

/// The globs a compiled override set holds, in order.
pub uninterp spec fn override_pats(o: ignore::overrides::Override) -> Seq<Seq<char>>;

/// The root path a compiled override set is anchored to.
pub uninterp spec fn override_root(o: ignore::overrides::Override) -> Seq<char>;

/// Whether `OverrideBuilder::add` accepts the glob.  Under the fixed
/// builder configuration used here (case-sensitive, unclosed
/// character classes refused — what `OverrideBuilder::new` sets up,
/// and nothing in this crate changes), acceptance depends on the
/// glob text alone.
pub uninterp spec fn glob_valid(glob: Seq<char>) -> bool;

/// The verdict of the override matcher for one exclusion glob
/// (written in its `!`-prefixed form) against a file path, relative
/// to the override set's root.  It depends on these three alone.
pub uninterp spec fn glob_excludes(glob: Seq<char>, root: Seq<char>, path: Seq<char>) -> bool;

/// The matcher's verdict for the same glob against a directory path
/// (the matcher is told it is looking at a directory).  It likewise
/// depends on these three alone.
pub uninterp spec fn glob_excludes_dir(glob: Seq<char>, root: Seq<char>, path: Seq<char>) -> bool;

/// Whether the glob-set compile step of `OverrideBuilder::build`
/// accepts this list of glob lines; it depends on the lines alone.
pub uninterp spec fn globs_compile(pats: Seq<Seq<char>>) -> bool;

/// An exclude pattern in the form handed to the override builder:
/// the `!` prefix forces exclusion semantics.
pub open spec fn excl_glob(p: Seq<char>) -> Seq<char> {
    "!"@ + p
}

/// Relies on ignore::overrides::OverrideBuilder::new: a fresh builder
/// holds no globs, matches relative to the given root, and carries
/// the crate's fixed matching configuration.  Every builder that the
/// other wrappers see was made here.
#[verifier::external_body]
fn override_builder_new(root: &str) -> (b: ignore::overrides::OverrideBuilder)
    ensures
        builder_pats(b) =~= Seq::<Seq<char>>::empty(),
        builder_root(b) == root@,
{
    ignore::overrides::OverrideBuilder::new(root)
}

/// Relies on ignore::overrides::OverrideBuilder::add: the glob is
/// accepted exactly when it parses, which depends on its text alone;
/// an accepted glob joins the set.  A comment line (leading '#') or
/// a blank line would be accepted without joining the set, so only
/// lines in forced-exclusion form — a leading '!' — are admitted
/// here; every caller in this crate passes such lines.
#[verifier::external_body]
fn override_builder_add(b: &mut ignore::overrides::OverrideBuilder, glob: &str) -> (r: Result<
    (),
    ignore::Error,
>)
    requires
        glob@.len() >= 1,
        glob@[0] == '!',
    ensures
        r is Ok <==> glob_valid(glob@),
        r is Ok ==> builder_pats(*final (b)) =~= builder_pats(*old(b)).push(glob@),
        r is Ok ==> builder_root(*final (b)) == builder_root(*old(b)),
{
    match b.add(glob) {
        Ok(_) => Ok(()),
        Err(e) => Err(e),
    }
}

/// Relies on ignore::overrides::OverrideBuilder::build: the compiled
/// override set holds the globs added so far, anchored to the
/// builder's root; building succeeds exactly when the glob-set
/// compile accepts those lines, which depends on the lines alone.
#[verifier::external_body]
fn override_builder_build(b: &ignore::overrides::OverrideBuilder) -> (r: Result<
    ignore::overrides::Override,
    ignore::Error,
>)
    ensures
        r is Ok <==> globs_compile(builder_pats(*b)),
        r matches Ok(ov) ==> override_pats(ov) =~= builder_pats(*b) && override_root(ov)
            == builder_root(*b),
{
    b.build()
}

/// Relies on std::path::Path::is_file: it queries the filesystem, so
/// the answer depends on the state of the disk and nothing is
/// promised of it.
#[verifier::external_body]
fn path_is_file(p: &str) -> bool {
    std::path::Path::new(p).is_file()
}

/// One entry met during a walk: its path, whether it is a regular
/// file, and its depth below the walk's root.
pub struct WalkItem {
    pub path: String,
    pub is_file: bool,
    pub depth: usize,
}

/// Relies on ignore::WalkBuilder and the ignore::Walk iterator: the
/// walk starts at the root (its sole depth-0 entry); every deeper
/// entry lies under the root, was checked against the override set
/// and is skipped when an override glob matches it; a directory so
/// matched is not descended into, so nothing it holds is yielded;
/// ignore-file rules filter entries further; the first traversal
/// error ends the walk.  What the walk yields depends on the disk,
/// so only those checks are stated.  The root must be free of a
/// trailing separator, and every glob in forced-exclusion form (a
/// leading '!'): with a whitelist glob present the last matching
/// glob would win and the per-glob clauses would not hold.  The
/// verdicts are stated over the paths as UTF-8 text; an entry name
/// that is not valid UTF-8 is decoded lossily, and for such a name
/// the decoded text can differ from the bytes the matcher saw.
#[verifier::external_body]
fn run_walk(root: &str, ov: ignore::overrides::Override) -> (r: Result<
    Vec<WalkItem>,
    ignore::Error,
>)
    requires
        root@.len() > 0 ==> root@.last() != '/',
        forall|j: int|
            0 <= j < override_pats(ov).len() ==> (#[trigger] override_pats(ov)[j]).len() >= 1
                && override_pats(ov)[j][0] == '!',
    ensures
        r matches Ok(items) ==> forall|i: int|
            0 <= i < items@.len() ==> ((#[trigger] items@[i]).depth == 0 ==> items@[i].path@
                == root@) && (items@[i].depth >= 1 ==> spec_is_under(root@, items@[i].path@)) && (
            items@[i].is_file && items@[i].depth >= 1 ==> (forall|j: int|
                0 <= j < override_pats(ov).len() ==> !glob_excludes(
                    #[trigger] override_pats(ov)[j],
                    override_root(ov),
                    items@[i].path@,
                )) && (forall|m: int, j: int|
                root@.len() < m < items@[i].path@.len() && items@[i].path@[m] == '/' && 0 <= j
                    < override_pats(ov).len() ==> !glob_excludes_dir(
                    #[trigger] override_pats(ov)[j],
                    override_root(ov),
                    #[trigger] items@[i].path@.take(m),
                ))),
{
    let walker =
        ignore::WalkBuilder::new(root).standard_filters(true).hidden(false).overrides(ov).build();
    let mut items = Vec::new();
    for result in walker {
        let entry = result?;
        let is_file = matches!(entry.file_type(), Some(ft) if ft.is_file());
        let path = entry.path().to_string_lossy().into_owned();
        items.push(WalkItem { path, is_file, depth: entry.depth() });
    }
    Ok(items)
}

/// What can go wrong while discovering files.
#[derive(Debug)]
pub enum CopycatError {
    /// An exclude pattern did not compile.
    InvalidPattern(ignore::Error),
    /// Walking the directory tree failed.
    Traversal(ignore::Error),
    /// Discovery found nothing to work on.
    NoFiles,
}

/// The full glob list discovery uses: the version-control metadata
/// directory first, then each user pattern, all in exclusion form.
pub open spec fn discovery_globs(excludes: Seq<Seq<char>>) -> Seq<Seq<char>> {
    seq![excl_glob(".git"@)] + excludes.map_values(|p: Seq<char>| excl_glob(p))
}

/// Whether resolution must reject this pattern list: some forced
/// exclusion line fails to parse, or the compiled set fails to
/// build.
pub open spec fn patterns_rejected(excludes: Seq<Seq<char>>) -> bool {
    ||| !glob_valid(excl_glob(".git"@))
    ||| exists|j: int| 0 <= j < excludes.len() && !glob_valid(#[trigger] excl_glob(excludes[j]))
    ||| !globs_compile(discovery_globs(excludes))
}

/// Build the override set for `excludes`, anchored at `root`.  Every
/// pattern is forced into exclusion form, and the version-control
/// metadata directory is always excluded.  Resolution fails — with a
/// pattern error and no override set, not even a partial one —
/// exactly when some pattern does not parse or the set does not
/// compile.
fn build_override(excludes: &Vec<String>, root: &str) -> (r: Result<
    ignore::overrides::Override,
    CopycatError,
>)
    ensures
        r matches Ok(ov) ==> override_pats(ov) =~= discovery_globs(views_of(excludes@))
            && override_root(ov) == root@ && forall|j: int|
            0 <= j < views_of(excludes@).len() ==> #[trigger] glob_valid(
                excl_glob(views_of(excludes@)[j]),
            ),
        r is Err <==> patterns_rejected(views_of(excludes@)),
        r matches Err(e) ==> e is InvalidPattern,
{
    let mut b = override_builder_new(root);
    proof {
        reveal_strlit("!");
        reveal_strlit(".git");
        reveal_strlit("!.git");
        assert("!.git"@ =~= excl_glob(".git"@));
        assert("!.git"@.len() >= 1 && "!.git"@[0] == '!');
    }
    match override_builder_add(&mut b, "!.git") {
        Ok(_) => {},
        Err(e) => {
            return Err(CopycatError::InvalidPattern(e));
        },
    }
    let mut i: usize = 0;
    while i < excludes.len()
        invariant
            i <= excludes@.len(),
            builder_root(b) == root@,
            builder_pats(b) =~= discovery_globs(views_of(excludes@).take(i as int)),
            forall|j: int|
                0 <= j < i ==> #[trigger] glob_valid(excl_glob(views_of(excludes@)[j])),
        decreases excludes@.len() - i,
    {
        let mut g = String::new();
        g.append("!");
        g.append(excludes[i].as_str());
        proof {
            reveal_strlit("!");
            assert(g@ =~= excl_glob(views_of(excludes@)[i as int]));
            assert(g@.len() >= 1 && g@[0] == '!');
        }
        match override_builder_add(&mut b, g.as_str()) {
            Ok(_) => {},
            Err(e) => {
                return Err(CopycatError::InvalidPattern(e));
            },
        }
        proof {
            assert(builder_pats(b) =~= discovery_globs(views_of(excludes@).take(i + 1)));
        }
        i = i + 1;
    }
    proof {
        assert(views_of(excludes@).take(excludes@.len() as int) =~= views_of(excludes@));
    }
    match override_builder_build(&b) {
        Ok(ov) => Ok(ov),
        Err(e) => Err(CopycatError::InvalidPattern(e)),
    }
}

/// Whether a path survives every exclusion glob of a discovery run:
/// neither the metadata-directory glob nor any user pattern matches
/// the path itself, nor — as a directory — any ancestor of it
/// strictly below the root.
pub open spec fn unexcluded(excludes: Seq<Seq<char>>, root: Seq<char>, p: Seq<char>) -> bool {
    &&& !glob_excludes(excl_glob(".git"@), root, p)
    &&& forall|j: int|
        0 <= j < excludes.len() ==> !glob_excludes(#[trigger] excl_glob(excludes[j]), root, p)
    &&& forall|m: int|
        root.len() < m < p.len() && p[m] == '/' ==> !glob_excludes_dir(
            excl_glob(".git"@),
            root,
            #[trigger] p.take(m),
        )
    &&& forall|m: int, j: int|
        root.len() < m < p.len() && p[m] == '/' && 0 <= j < excludes.len() ==> !glob_excludes_dir(
            #[trigger] excl_glob(excludes[j]),
            root,
            #[trigger] p.take(m),
        )
}

/// Whether `p` is the path of a regular-file entry of `items`.
pub open spec fn from_walk_file(items: Seq<WalkItem>, p: Seq<char>) -> bool {
    exists|n: int| 0 <= n < items.len() && (#[trigger] items[n]).is_file && items[n].path@ == p
}

/// The paths of the regular files among the walked entries, in walk
/// order.
pub open spec fn file_paths_of(items: Seq<WalkItem>) -> Seq<Seq<char>> {
    items.filter(|it: WalkItem| it.is_file).map_values(|it: WalkItem| it.path@)
}

/// Keep the regular files of a walk, as their paths, in walk order.
fn files_from_walk(items: Vec<WalkItem>) -> (r: Vec<String>)
    ensures
        views_of(r@) =~= file_paths_of(items@),
        forall|k: int| 0 <= k < r@.len() ==> #[trigger] from_walk_file(items@, views_of(r@)[k]),
{
    let ghost pred = |it: WalkItem| it.is_file;
    let mut out: Vec<String> = Vec::new();
    let mut i: usize = 0;
    proof {
        reveal(Seq::filter);
        assert(items@.take(0) =~= Seq::<WalkItem>::empty());
        assert(views_of(out@) =~= file_paths_of(items@.take(0)));
    }
    while i < items.len()
        invariant
            i <= items@.len(),
            pred == (|it: WalkItem| it.is_file),
            views_of(out@) =~= file_paths_of(items@.take(i as int)),
            forall|k: int|
                0 <= k < out@.len() ==> #[trigger] from_walk_file(items@, views_of(out@)[k]),
        decreases items@.len() - i,
    {
        let ghost prev = out@;
        let keep = items[i].is_file;
        if keep {
            let p = items[i].path.clone();
            out.push(p);
        }
        proof {
            reveal(Seq::filter);
            let t = items@.take(i + 1);
            assert(t.drop_last() =~= items@.take(i as int));
            assert(t.last() == items@[i as int]);
            let fprev = items@.take(i as int).filter(pred);
            if keep {
                assert(t.filter(pred) == fprev.push(items@[i as int]));
                assert(views_of(out@) =~= views_of(prev).push(items@[i as int].path@));
                assert(t.filter(pred).map_values(|it: WalkItem| it.path@) =~= fprev.map_values(
                    |it: WalkItem| it.path@,
                ).push(items@[i as int].path@));
                assert(views_of(out@) =~= file_paths_of(items@.take(i + 1)));
            } else {
                assert(t.filter(pred) == fprev);
                assert(views_of(out@) =~= views_of(prev));
                assert(views_of(out@) =~= file_paths_of(items@.take(i + 1)));
            }
            assert forall|k: int| 0 <= k < out@.len() implies #[trigger] from_walk_file(
                items@,
                views_of(out@)[k],
            ) by {
                if k < prev.len() {
                    assert(views_of(out@)[k] == views_of(prev)[k]);
                    assert(from_walk_file(items@, views_of(prev)[k]));
                } else {
                    assert(views_of(out@)[k] == items@[i as int].path@);
                    assert(0 <= i < items@.len() && items@[i as int].is_file && items@[
                        i as int
                    ].path@ == views_of(out@)[k]);
                }
            }
        }
        i = i + 1;
    }
    proof {
        assert(items@.take(items@.len() as int) =~= items@);
    }
    out
}

/// What a successful discovery promises of each path it lists: it
/// is the (separator-trimmed) root itself, or it lies under that
/// root and survives every exclusion glob.
pub open spec fn discovered_ok(
    excludes: Seq<Seq<char>>,
    root: Seq<char>,
    p: Seq<char>,
) -> bool {
    p == root || (spec_is_under(root, p) && unexcluded(excludes, root, p))
}

/// Decide discovery from the root's is-file verdict.  A root that is
/// a regular file comes back alone, untouched by ignore rules and
/// exclude patterns; for a directory the walk runs, and every
/// surviving path lies under the root and is free of every
/// exclusion glob.  Trailing separators on the root are ignored.
pub fn discover(root: &str, excludes: &Vec<String>, sort: bool, root_is_file: bool) -> (r: Result<
    Vec<String>,
    CopycatError,
>)
    ensures
        root_is_file ==> (r matches Ok(files) && views_of(files@) =~= seq![
            spec_trim_slashes(root@),
        ]),
        r matches Ok(files) ==> (sort ==> strings_sorted(views_of(files@))) && forall|k: int|
            0 <= k < files@.len() ==> #[trigger] discovered_ok(
                views_of(excludes@),
                spec_trim_slashes(root@),
                views_of(files@)[k],
            ),
        (r matches Err(e) && e is InvalidPattern) ==> patterns_rejected(views_of(excludes@)),
        r matches Err(e) ==> !root_is_file && !(e is NoFiles),
{
    let rn = crate::strutil::trim_trailing_slashes(root);
    let ghost rv = spec_trim_slashes(root@);
    if root_is_file {
        let mut files: Vec<String> = Vec::new();
        files.push(rn);
        proof {
            assert(views_of(files@) =~= seq![rv]);
            assert(discovered_ok(views_of(excludes@), rv, views_of(files@)[0]));
        }
        return Ok(files);
    }
    let ov = match build_override(excludes, rn.as_str()) {
        Ok(o) => o,
        Err(e) => {
            return Err(e);
        },
    };
    let ghost pats = override_pats(ov);
    let ghost ov_root = override_root(ov);
    proof {
        crate::strutil::lemma_trim_slashes_idempotent(root@);
        reveal_strlit("!");
        assert forall|j: int| 0 <= j < pats.len() implies (#[trigger] pats[j]).len() >= 1
            && pats[j][0] == '!' by {
            if j == 0 {
                assert(pats[0] == excl_glob(".git"@));
            } else {
                assert(pats[j] == excl_glob(views_of(excludes@)[j - 1]));
            }
        }
    }
    let items = match run_walk(rn.as_str(), ov) {
        Ok(it) => it,
        Err(e) => {
            return Err(CopycatError::Traversal(e));
        },
    };
    let mut files = files_from_walk(items);
    proof {
        assert forall|k: int| 0 <= k < files@.len() implies #[trigger] discovered_ok(
            views_of(excludes@),
            rv,
            views_of(files@)[k],
        ) by {
            assert(from_walk_file(items@, views_of(files@)[k]));
            let n = choose|n: int|
                0 <= n < items@.len() && (#[trigger] items@[n]).is_file && items@[n].path@
                    == views_of(files@)[k];
            let p = items@[n].path@;
            if items@[n].depth == 0 {
                assert(p == rv);
            } else {
                assert(spec_is_under(rv, p));
                assert(pats =~= discovery_globs(views_of(excludes@)));
                assert(pats[0] == excl_glob(".git"@));
                assert(!glob_excludes(pats[0], ov_root, p));
                assert forall|j: int| 0 <= j < views_of(excludes@).len() implies !glob_excludes(
                    #[trigger] excl_glob(views_of(excludes@)[j]),
                    rv,
                    p,
                ) by {
                    assert(pats[j + 1] == excl_glob(views_of(excludes@)[j]));
                    assert(!glob_excludes(pats[j + 1], ov_root, p));
                }
                assert forall|m: int| rv.len() < m < p.len() && p[m] == '/'
                    implies !glob_excludes_dir(excl_glob(".git"@), rv, #[trigger] p.take(m)) by {
                    assert(!glob_excludes_dir(pats[0], ov_root, p.take(m)));
                }
                assert forall|m: int, j: int|
                    rv.len() < m < p.len() && p[m] == '/' && 0 <= j < views_of(excludes@).len()
                    implies !glob_excludes_dir(
                    #[trigger] excl_glob(views_of(excludes@)[j]),
                    rv,
                    #[trigger] p.take(m),
                ) by {
                    assert(pats[j + 1] == excl_glob(views_of(excludes@)[j]));
                    assert(!glob_excludes_dir(pats[j + 1], ov_root, p.take(m)));
                }
                assert(unexcluded(views_of(excludes@), rv, p));
            }
        }
    }
    if sort {
        let ghost pre = files@;
        sort_strings(&mut files);
        proof {
            views_of(pre).to_multiset_ensures();
            views_of(files@).to_multiset_ensures();
            assert forall|k: int| 0 <= k < files@.len() implies #[trigger] discovered_ok(
                views_of(excludes@),
                rv,
                views_of(files@)[k],
            ) by {
                assert(views_of(files@).to_multiset().contains(views_of(files@)[k]));
                assert(views_of(pre).to_multiset().contains(views_of(files@)[k]));
                assert(views_of(pre).contains(views_of(files@)[k]));
                let m = choose|m: int|
                    0 <= m < views_of(pre).len() && views_of(pre)[m] == views_of(files@)[k];
                assert(discovered_ok(views_of(excludes@), rv, views_of(pre)[m]));
            }
        }
    }
    Ok(files)
}

/// Collect the files under `path`, honoring version-control ignore
/// rules and the forced exclusion patterns in `excludes`.  A `path`
/// that is itself a regular file is returned alone, untouched by any
/// pattern (`discover` carries that promise, given the verdict of
/// the filesystem test made here).  With `sort` the paths come in
/// lexicographic order; otherwise they keep the walker's traversal
/// order.
pub fn collect_files(path: &str, excludes: &Vec<String>, sort: bool) -> (r: Result<
    Vec<String>,
    CopycatError,
>)
    ensures
        r matches Ok(files) ==> (sort ==> strings_sorted(views_of(files@))) && forall|k: int|
            0 <= k < files@.len() ==> #[trigger] discovered_ok(
                views_of(excludes@),
                spec_trim_slashes(path@),
                views_of(files@)[k],
            ),
        (r matches Err(e) && e is InvalidPattern) ==> patterns_rejected(views_of(excludes@)),
        r matches Err(e) ==> !(e is NoFiles),
{
    let root = crate::strutil::trim_trailing_slashes(path);
    let is_file = path_is_file(root.as_str());
    let r = discover(root.as_str(), excludes, sort, is_file);
    proof {
        crate::strutil::lemma_trim_slashes_idempotent(path@);
    }
    r
}

} // verus!
