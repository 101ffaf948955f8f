use vstd::assert_multisets_equal;
use vstd::multiset::Multiset;
use vstd::prelude::*;

verus! {

/// Lexicographic order on character sequences, by code point.  For
/// UTF-8 encoded paths this coincides with byte-wise comparison of
/// the encoded strings, since UTF-8 preserves code-point order.
pub open spec fn lex_le(a: Seq<char>, b: Seq<char>) -> bool
    decreases a.len(),
{
    if a.len() == 0 {
        true
    } else if b.len() == 0 {
        false
    } else if a[0] != b[0] {
        a[0] < b[0]
    } else {
        lex_le(a.skip(1), b.skip(1))
    }
}

/// The order `lex_le` as a function value, for use with `sorted_by`.
pub open spec fn lex_le_fun() -> spec_fn(Seq<char>, Seq<char>) -> bool {
    |a: Seq<char>, b: Seq<char>| lex_le(a, b)
}

/// The views of a sequence of strings.
pub open spec fn views_of(s: Seq<String>) -> Seq<Seq<char>> {
    s.map_values(|x: String| x@)
}

/// `lex_le` is total: any two sequences are comparable.
pub proof fn lemma_lex_le_connected(a: Seq<char>, b: Seq<char>)
    ensures
        lex_le(a, b) || lex_le(b, a),
    decreases a.len(),
{
    if a.len() != 0 && b.len() != 0 && a[0] == b[0] {
        lemma_lex_le_connected(a.skip(1), b.skip(1));
    }
}

/// `lex_le` is antisymmetric: mutual order means equality.
pub proof fn lemma_lex_le_antisymmetric(a: Seq<char>, b: Seq<char>)
    requires
        lex_le(a, b),
        lex_le(b, a),
    ensures
        a =~= b,
    decreases a.len(),
{
    if a.len() != 0 && b.len() != 0 && a[0] == b[0] {
        lemma_lex_le_antisymmetric(a.skip(1), b.skip(1));
        assert(a =~= seq![a[0]] + a.skip(1));
        assert(b =~= seq![b[0]] + b.skip(1));
    }
}

/// `lex_le` is transitive.
pub proof fn lemma_lex_le_transitive(a: Seq<char>, b: Seq<char>, c: Seq<char>)
    requires
        lex_le(a, b),
        lex_le(b, c),
    ensures
        lex_le(a, c),
    decreases a.len(),
{
    if a.len() != 0 && b.len() != 0 && c.len() != 0 {
        if a[0] == b[0] && b[0] == c[0] {
            lemma_lex_le_transitive(a.skip(1), b.skip(1), c.skip(1));
        }
    }
}

/// `lex_le` is a total ordering in the sense of `vstd::relations`.
pub proof fn lemma_lex_le_total_ordering()
    ensures
        vstd::relations::total_ordering(lex_le_fun()),
{
    let leq = lex_le_fun();
    assert forall|a: Seq<char>, b: Seq<char>| #[trigger] leq(a, b) && #[trigger] leq(b, a)
        implies a == b by {
        lemma_lex_le_antisymmetric(a, b);
    }
    assert forall|a: Seq<char>, b: Seq<char>, c: Seq<char>|
        #[trigger] leq(a, b) && #[trigger] leq(b, c) implies leq(a, c) by {
        lemma_lex_le_transitive(a, b, c);
    }
    assert forall|a: Seq<char>, b: Seq<char>| true implies #[trigger] leq(a, b) || #[trigger] leq(
        b,
        a,
    ) by {
        lemma_lex_le_connected(a, b);
    }
}

/// Decide `lex_le` on two strings.
pub fn str_le(a: &str, b: &str) -> (r: bool)
    ensures
        r == lex_le(a@, b@),
{
    let alen = a.unicode_len();
    let blen = b.unicode_len();
    let mut i: usize = 0;
    proof {
        assert(a@.skip(0) =~= a@);
        assert(b@.skip(0) =~= b@);
    }
    loop
        invariant
            i <= alen,
            i <= blen,
            alen == a@.len(),
            blen == b@.len(),
            lex_le(a@, b@) == lex_le(a@.skip(i as int), b@.skip(i as int)),
        decreases alen - i,
    {
        if i == alen {
            return true;
        }
        if i == blen {
            return false;
        }
        let ca = a.get_char(i);
        let cb = b.get_char(i);
        if ca != cb {
            return ca < cb;
        }
        proof {
            assert(a@.skip(i as int).skip(1) =~= a@.skip(i + 1));
            assert(b@.skip(i as int).skip(1) =~= b@.skip(i + 1));
        }
        i = i + 1;
    }
}

/// Decide equality of two strings' character sequences.
pub fn str_eq(a: &str, b: &str) -> (r: bool)
    ensures
        r == (a@ == b@),
{
    let alen = a.unicode_len();
    let blen = b.unicode_len();
    if alen != blen {
        return false;
    }
    let mut i: usize = 0;
    while i < alen
        invariant
            i <= alen,
            alen == a@.len(),
            alen == b@.len(),
            forall|k: int| 0 <= k < i ==> a@[k] == b@[k],
        decreases alen - i,
    {
        if a.get_char(i) != b.get_char(i) {
            return false;
        }
        i = i + 1;
    }
    proof {
        assert(a@ =~= b@);
    }
    true
}


/// Sortedness of a sequence of character sequences under `lex_le`.
pub open spec fn strings_sorted(s: Seq<Seq<char>>) -> bool {
    forall|i: int, j: int| 0 <= i < j < s.len() ==> #[trigger] lex_le(s[i], s[j])
}

/// `strings_sorted` agrees with `vstd::relations::sorted_by` under `lex_le_fun`.
pub proof fn lemma_strings_sorted_is_sorted_by(s: Seq<Seq<char>>)
    ensures
        strings_sorted(s) == vstd::relations::sorted_by(s, lex_le_fun()),
{
    if strings_sorted(s) {
        assert forall|i: int, j: int| 0 <= i < j < s.len() implies #[trigger] lex_le_fun()(
            s[i],
            s[j],
        ) by {
            assert(lex_le(s[i], s[j]));
        }
    }
    if vstd::relations::sorted_by(s, lex_le_fun()) {
        assert forall|i: int, j: int| 0 <= i < j < s.len() implies #[trigger] lex_le(
            s[i],
            s[j],
        ) by {
            assert(lex_le_fun()(s[i], s[j]));
        }
    }
}

/// Find the position before the first element that `s` must precede.
fn lower_pos(out: &Vec<String>, s: &String) -> (i: usize)
    ensures
        i <= out@.len(),
        forall|k: int| 0 <= k < i ==> #[trigger] lex_le(views_of(out@)[k], s@),
        i < out@.len() ==> !lex_le(views_of(out@)[i as int], s@),
{
    let mut i: usize = 0;
    loop
        invariant
            i <= out@.len(),
            forall|k: int| 0 <= k < i ==> #[trigger] lex_le(views_of(out@)[k], s@),
        decreases out@.len() - i,
    {
        if i == out.len() {
            return i;
        }
        if !str_le(&out[i], s) {
            return i;
        }
        proof {
            assert(views_of(out@)[i as int] == out@[i as int]@);
        }
        i = i + 1;
    }
}

/// Inserting `x` at a position bounded below by elements at most `x`
/// and above by one not at most `x` keeps the sequence sorted.
pub proof fn lemma_sorted_insert_mid(vs: Seq<Seq<char>>, k: int, x: Seq<char>)
    requires
        strings_sorted(vs),
        0 <= k <= vs.len(),
        forall|i: int| 0 <= i < k ==> #[trigger] lex_le(vs[i], x),
        k < vs.len() ==> !lex_le(vs[k], x),
    ensures
        strings_sorted(vs.insert(k, x)),
{
    let ws = vs.insert(k, x);
    assert forall|p: int, q: int| 0 <= p < q < ws.len() implies #[trigger] lex_le(
        ws[p],
        ws[q],
    ) by {
        if q < k {
            assert(lex_le(vs[p], vs[q]));
        } else if p < k && q == k {
            assert(lex_le(vs[p], x));
        } else if p < k && q > k {
            assert(lex_le(vs[p], vs[q - 1]));
        } else if p == k {
            if k < vs.len() {
                assert(!lex_le(vs[k], x));
                lemma_lex_le_connected(vs[k], x);
                assert(lex_le(x, vs[k]));
                if q - 1 > k {
                    assert(lex_le(vs[k], vs[q - 1]));
                    lemma_lex_le_transitive(x, vs[k], vs[q - 1]);
                }
            }
        } else {
            assert(lex_le(vs[p - 1], vs[q - 1]));
        }
    }
}

/// Insert `s` into the sorted vector `out`, keeping it sorted.
fn insert_sorted(out: &mut Vec<String>, s: String)
    requires
        strings_sorted(views_of(old(out)@)),
    ensures
        strings_sorted(views_of(final(out)@)),
        views_of(final(out)@).to_multiset() == views_of(old(out)@).to_multiset().insert(s@),
{
    let i = lower_pos(out, &s);
    let ghost pre = out@;
    let ghost ipos = i as int;
    out.insert(i, s);
    proof {
        let vs = views_of(out@);
        let old_vs = views_of(pre);
        assert(vs =~= old_vs.insert(ipos, s@));
        assert forall|p: int, q: int| 0 <= p < q < vs.len() implies #[trigger] lex_le(
            vs[p],
            vs[q],
        ) by {
            if q < ipos {
                assert(lex_le(old_vs[p], old_vs[q]));
            } else if p < ipos && q == ipos {
                assert(lex_le(old_vs[p], s@));
            } else if p < ipos && q > ipos {
                assert(lex_le(old_vs[p], old_vs[q - 1]));
            } else if p == ipos {
                assert(!lex_le(old_vs[ipos], s@));
                lemma_lex_le_connected(old_vs[ipos], s@);
                assert(lex_le(s@, old_vs[ipos]));
                if q - 1 > ipos {
                    assert(lex_le(old_vs[ipos], old_vs[q - 1]));
                    lemma_lex_le_transitive(s@, old_vs[ipos], old_vs[q - 1]);
                }
            } else {
                assert(lex_le(old_vs[p - 1], old_vs[q - 1]));
            }
        }
        lemma_insert_to_multiset(old_vs, ipos, s@);
    }
}

/// Inserting into a sequence adds one occurrence to its multiset.
proof fn lemma_insert_to_multiset<A>(s: Seq<A>, i: int, v: A)
    requires
        0 <= i <= s.len(),
    ensures
        s.insert(i, v).to_multiset() == s.to_multiset().insert(v),
{
    let t = s.insert(i, v);
    t.to_multiset_ensures();
    assert(t.remove(i) =~= s);
    assert(t.remove(i).to_multiset() =~= t.to_multiset().remove(t[i]));
    assert(t[i] == v);
    assert(0 <= i < t.len());
    assert(t.contains(v));
    assert(t.to_multiset().count(v) > 0);
    assert_multisets_equal!(t.to_multiset(), s.to_multiset().insert(v), m => {
        if m == v {
            assert(t.to_multiset().remove(v).count(v) + 1 == t.to_multiset().count(v));
        } else {
            assert(t.to_multiset().remove(v).count(m) == t.to_multiset().count(m));
        }
    });
}

/// Sort a vector of strings into lexicographic order.  The result
/// holds the same strings (as character sequences, with multiplicity)
/// in `lex_le` order.
pub fn sort_strings(v: &mut Vec<String>)
    ensures
        strings_sorted(views_of(final(v)@)),
        views_of(final(v)@).to_multiset() == views_of(old(v)@).to_multiset(),
{
    let mut out: Vec<String> = Vec::new();
    proof {
        assert(views_of(out@) =~= Seq::<Seq<char>>::empty());
        views_of(out@).to_multiset_ensures();
        assert(views_of(out@).to_multiset().len() == 0);
        assert(views_of(out@).to_multiset() =~= Multiset::<Seq<char>>::empty());
        assert(views_of(v@) == views_of(old(v)@));
    }
    while v.len() > 0
        invariant
            strings_sorted(views_of(out@)),
            views_of(out@).to_multiset().add(views_of(v@).to_multiset()) == views_of(
                old(v)@,
            ).to_multiset(),
        decreases v@.len(),
    {
        let ghost pre = v@;
        let ghost preout = out@;
        let s = v.remove(0);
        proof {
            assert(views_of(pre.remove(0)) =~= views_of(pre).remove(0));
            views_of(pre).to_multiset_ensures();
            assert(views_of(pre).remove(0).to_multiset() =~= views_of(pre).to_multiset().remove(
                views_of(pre)[0],
            ));
            assert(s@ == views_of(pre)[0]);
        }
        insert_sorted(&mut out, s);
        proof {
            assert_multisets_equal!(
                views_of(out@).to_multiset().add(views_of(v@).to_multiset()),
                views_of(old(v)@).to_multiset(),
                m => {
                    views_of(pre).to_multiset_ensures();
                    assert(views_of(pre).to_multiset().contains(views_of(pre)[0]));
                }
            );
        }
    }
    proof {
        assert(views_of(v@) =~= Seq::<Seq<char>>::empty());
        views_of(v@).to_multiset_ensures();
        assert(views_of(v@).to_multiset().len() == 0);
        assert(views_of(v@).to_multiset() =~= Multiset::<Seq<char>>::empty());
    }
    *v = out;
}


/// The raw segments of `p`, split at every '/' character.
pub open spec fn split_segments(p: Seq<char>) -> Seq<Seq<char>>
    decreases p.len(),
{
    if p.len() == 0 {
        seq![Seq::<char>::empty()]
    } else if p[p.len() - 1] == '/' {
        split_segments(p.take(p.len() - 1)).push(Seq::<char>::empty())
    } else {
        let r = split_segments(p.take(p.len() - 1));
        r.update(r.len() - 1, r.last().push(p[p.len() - 1]))
    }
}

/// Splitting always yields at least one segment.
pub proof fn lemma_split_segments_len(p: Seq<char>)
    ensures
        split_segments(p).len() >= 1,
    decreases p.len(),
{
    if p.len() > 0 {
        lemma_split_segments_len(p.take(p.len() - 1));
    }
}

/// A segment that names a real path component: neither empty nor the
/// current-directory marker.
pub open spec fn is_real_segment(c: Seq<char>) -> bool {
    c.len() > 0 && c != "."@
}

/// The path components of `p`: the non-empty segments other than ".".
pub open spec fn spec_components(p: Seq<char>) -> Seq<Seq<char>> {
    split_segments(p).filter(|c: Seq<char>| is_real_segment(c))
}

/// Split a path into its components, dropping empty segments and ".".
pub fn split_components(p: &str) -> (r: Vec<String>)
    ensures
        views_of(r@) == spec_components(p@),
{
    let len = p.unicode_len();
    let mut raw: Vec<String> = Vec::new();
    let mut start: usize = 0;
    let mut i: usize = 0;
    proof {
        assert(p@.take(0) =~= Seq::<char>::empty());
        assert(p@.subrange(0, 0) =~= Seq::<char>::empty());
        assert(views_of(raw@).push(p@.subrange(0, 0)) =~= split_segments(p@.take(0)));
    }
    while i < len
        invariant
            start <= i <= len,
            len == p@.len(),
            views_of(raw@).push(p@.subrange(start as int, i as int)) =~= split_segments(
                p@.take(i as int),
            ),
        decreases len - i,
    {
        let ghost prev = views_of(raw@).push(p@.subrange(start as int, i as int));
        proof {
            assert(p@.take(i + 1).take(i as int) =~= p@.take(i as int));
            assert(p@.take(i + 1)[i as int] == p@[i as int]);
        }
        if p.get_char(i) == '/' {
            let seg = p.substring_char(start, i).to_owned();
            proof {
                assert(seg@ =~= p@.subrange(start as int, i as int));
            }
            raw.push(seg);
            start = i + 1;
            proof {
                assert(p@.subrange(start as int, i + 1) =~= Seq::<char>::empty());
                assert(views_of(raw@) =~= prev);
                assert(views_of(raw@).push(p@.subrange(start as int, i + 1)) =~= split_segments(
                    p@.take(i + 1),
                ));
            }
        } else {
            proof {
                lemma_split_segments_len(p@.take(i as int));
                assert(p@.subrange(start as int, i + 1) =~= p@.subrange(start as int, i as int).push(
                    p@[i as int],
                ));
                assert(views_of(raw@).push(p@.subrange(start as int, i + 1)) =~= prev.update(
                    prev.len() - 1,
                    prev.last().push(p@[i as int]),
                ));
                assert(views_of(raw@).push(p@.subrange(start as int, i + 1)) =~= split_segments(
                    p@.take(i + 1),
                ));
            }
        }
        i = i + 1;
    }
    let seg = p.substring_char(start, len).to_owned();
    proof {
        assert(seg@ =~= p@.subrange(start as int, len as int));
    }
    raw.push(seg);
    proof {
        assert(p@.take(len as int) =~= p@);
        assert(views_of(raw@) =~= split_segments(p@));
    }
    let ghost pred = |c: Seq<char>| is_real_segment(c);
    let mut out: Vec<String> = Vec::new();
    let mut j: usize = 0;
    proof {
        reveal(Seq::filter);
        assert(views_of(raw@).take(0) =~= Seq::<Seq<char>>::empty());
        assert(views_of(out@) =~= views_of(raw@).take(0).filter(pred));
    }
    while j < raw.len()
        invariant
            j <= raw@.len(),
            views_of(out@) =~= views_of(raw@).take(j as int).filter(pred),
            pred == (|c: Seq<char>| is_real_segment(c)),
        decreases raw@.len() - j,
    {
        let keep = if raw[j].as_str().unicode_len() == 0 {
            false
        } else {
            !str_eq(raw[j].as_str(), ".")
        };
        proof {
            assert(raw@[j as int]@ == views_of(raw@)[j as int]);
            assert(keep == is_real_segment(views_of(raw@)[j as int]));
        }
        let ghost prevout = views_of(out@);
        if keep {
            let s = raw[j].clone();
            proof {
                assert(s@ == raw@[j as int]@);
            }
            out.push(s);
        }
        proof {
            reveal(Seq::filter);
            let t = views_of(raw@).take(j + 1);
            assert(t.drop_last() =~= views_of(raw@).take(j as int));
            assert(t.last() == views_of(raw@)[j as int]);
            assert(views_of(out@) =~= t.filter(pred));
        }
        j = j + 1;
    }
    proof {
        assert(views_of(raw@).take(raw@.len() as int) =~= views_of(raw@));
    }
    out
}


/// The last path component of `p`, if it has one.
pub open spec fn spec_file_name(p: Seq<char>) -> Option<Seq<char>> {
    if spec_components(p).len() > 0 {
        Option::Some(spec_components(p).last())
    } else {
        Option::None
    }
}

/// The last path component of `p`, if it has one.
pub fn file_name_of(p: &str) -> (r: Option<String>)
    ensures
        match r {
            Option::Some(s) => spec_file_name(p@) == Option::Some(s@),
            Option::None => spec_file_name(p@) is None,
        },
{
    let comps = split_components(p);
    if comps.len() > 0 {
        let s = comps[comps.len() - 1].clone();
        proof {
            assert(s@ == views_of(comps@).last());
        }
        Option::Some(s)
    } else {
        proof {
            assert(spec_components(p@).len() == 0);
        }
        Option::None
    }
}

/// Whether `p` lies under `root`: it is `root` itself or continues it
/// after a '/' separator.
pub open spec fn spec_is_under(root: Seq<char>, p: Seq<char>) -> bool {
    p == root || (p.len() > root.len() && p.take(root.len() as int) == root && p[root.len() as int]
        == '/')
}

/// The path `p` made relative to `root`; meaningful when `p` lies
/// under `root`.
pub open spec fn spec_rel_path(root: Seq<char>, p: Seq<char>) -> Seq<char> {
    if p == root {
        Seq::empty()
    } else {
        p.skip(root.len() as int + 1)
    }
}

/// Strip the leading `root` and its separator from `p`, if `p` lies
/// under `root`.
pub fn rel_path(root: &str, p: &str) -> (r: Option<String>)
    ensures
        match r {
            Option::Some(s) => spec_is_under(root@, p@) && s@ == spec_rel_path(root@, p@),
            Option::None => !spec_is_under(root@, p@),
        },
{
    if str_eq(root, p) {
        return Option::Some(String::new());
    }
    let rl = root.unicode_len();
    let pl = p.unicode_len();
    if pl <= rl {
        proof {
            assert(!spec_is_under(root@, p@));
        }
        return Option::None;
    }
    let mut k: usize = 0;
    while k < rl
        invariant
            k <= rl,
            rl == root@.len(),
            pl == p@.len(),
            pl > rl,
            forall|t: int| 0 <= t < k ==> p@[t] == root@[t],
        decreases rl - k,
    {
        if root.get_char(k) != p.get_char(k) {
            proof {
                assert(p@.take(rl as int)[k as int] != root@[k as int]);
            }
            return Option::None;
        }
        k = k + 1;
    }
    if p.get_char(rl) != '/' {
        return Option::None;
    }
    let rest = p.substring_char(rl + 1, pl).to_owned();
    proof {
        assert(p@.take(rl as int) =~= root@);
        assert(rest@ =~= p@.skip(rl + 1));
    }
    Option::Some(rest)
}


/// Law: sorted discovery is deterministic.  Two lexicographically
/// sorted lists that hold the same paths (with multiplicity) are
/// identical, so discovering the same files twice with sorting
/// yields byte-identical output.
pub proof fn lemma_sorted_discovery_deterministic(a: Seq<Seq<char>>, b: Seq<Seq<char>>)
    requires
        strings_sorted(a),
        strings_sorted(b),
        a.to_multiset() == b.to_multiset(),
    ensures
        a =~= b,
{
    lemma_strings_sorted_is_sorted_by(a);
    lemma_strings_sorted_is_sorted_by(b);
    lemma_lex_le_total_ordering();
    vstd::seq_lib::lemma_sorted_unique(a, b, lex_le_fun());
}


/// `p` without its trailing '/' characters.
pub open spec fn spec_trim_slashes(p: Seq<char>) -> Seq<char>
    decreases p.len(),
{
    if p.len() > 0 && p.last() == '/' {
        spec_trim_slashes(p.drop_last())
    } else {
        p
    }
}

/// A trimmed path does not end in '/', so trimming again changes
/// nothing.
pub proof fn lemma_trim_slashes_idempotent(p: Seq<char>)
    ensures
        spec_trim_slashes(p).len() > 0 ==> spec_trim_slashes(p).last() != '/',
        spec_trim_slashes(spec_trim_slashes(p)) == spec_trim_slashes(p),
    decreases p.len(),
{
    if p.len() > 0 && p.last() == '/' {
        lemma_trim_slashes_idempotent(p.drop_last());
    }
}

/// Strip the trailing '/' characters of a path.
pub fn trim_trailing_slashes(p: &str) -> (r: String)
    ensures
        r@ == spec_trim_slashes(p@),
{
    let len = p.unicode_len();
    let mut j: usize = len;
    proof {
        assert(p@.take(len as int) =~= p@);
    }
    while j > 0
        invariant
            j <= len,
            len == p@.len(),
            spec_trim_slashes(p@) == spec_trim_slashes(p@.take(j as int)),
        decreases j,
    {
        if p.get_char(j - 1) != '/' {
            let r = p.substring_char(0, j).to_owned();
            proof {
                assert(r@ =~= p@.take(j as int));
                assert(p@.take(j as int).last() != '/');
            }
            return r;
        }
        proof {
            assert(p@.take(j as int).drop_last() =~= p@.take(j - 1));
        }
        j = j - 1;
    }
    proof {
        assert(p@.take(0) =~= Seq::<char>::empty());
    }
    String::new()
}

} // verus!
