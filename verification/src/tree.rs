use crate::strutil::{
    lex_le, spec_components, spec_file_name, spec_is_under, spec_rel_path, split_components,
    str_eq, str_le, strings_sorted, views_of,
};
use vstd::prelude::*;

verus! {

/// A node of the synthesized directory tree: a name and an ordered
/// list of child nodes.
pub struct TreeNode {
    pub name: String,
    pub children: Vec<TreeNode>,
}

/// The names of a list of nodes, as character sequences.
pub open spec fn names_of(cs: Seq<TreeNode>) -> Seq<Seq<char>> {
    cs.map_values(|c: TreeNode| c.name@)
}

impl TreeNode {
    /// Well-formedness: at every level, child names are pairwise distinct.
    pub open spec fn wf(self) -> bool
        decreases self,
    {
        &&& forall|i: int, j: int|
            0 <= i < j < self.children.len() ==> names_of(self.children@)[i] != names_of(
                self.children@,
            )[j]
        &&& forall|i: int| 0 <= i < self.children.len() ==> (#[trigger] self.children[i]).wf()
    }

    /// The non-empty name paths from this node down to each of its
    /// descendants.  A path lists the names along the way, starting
    /// with a child of this node; the node's own name is not included.
    pub open spec fn descendant_paths(self) -> Set<Seq<Seq<char>>>
        decreases self,
    {
        Set::new(
            |p: Seq<Seq<char>>|
                p.len() >= 1 && exists|i: int|
                    0 <= i < self.children.len() && (#[trigger] self.children[i]).name@ == p[0] && (
                    p.len() == 1 || self.children[i].descendant_paths().contains(p.skip(1))),
        )
    }

    /// Children are ordered by name at every level.
    pub open spec fn sorted(self) -> bool
        decreases self,
    {
        &&& strings_sorted(names_of(self.children@))
        &&& forall|i: int| 0 <= i < self.children.len() ==> (#[trigger] self.children[i]).sorted()
    }

    /// Create a new leaf node with the given name.
    pub fn new(name: String) -> (r: TreeNode)
        ensures
            r.name == name,
            r.children@ =~= Seq::<TreeNode>::empty(),
            r.wf(),
            r.sorted(),
            r.descendant_paths() =~= Set::<Seq<Seq<char>>>::empty(),
    {
        TreeNode { name, children: Vec::new() }
    }
}

/// The paths contributed by a single child node `c` to its parent:
/// the path consisting of `c`'s name alone, and every descendant path
/// of `c` prefixed with `c`'s name.
pub open spec fn child_paths(c: TreeNode) -> Set<Seq<Seq<char>>> {
    Set::new(
        |p: Seq<Seq<char>>|
            p.len() >= 1 && p[0] == c.name@ && (p.len() == 1 || c.descendant_paths().contains(
                p.skip(1),
            )),
    )
}

/// The non-empty prefixes of the component sequence `p`.
pub open spec fn path_prefixes(p: Seq<Seq<char>>) -> Set<Seq<Seq<char>>> {
    Set::new(|q: Seq<Seq<char>>| 1 <= q.len() <= p.len() && q == p.take(q.len() as int))
}

impl TreeNode {
    /// Insert a path of components below this node, creating any
    /// missing intermediate nodes and reusing those already present.
    /// The descendant paths afterwards are exactly the old ones plus
    /// every non-empty prefix of the inserted component sequence,
    /// and the `inserted` relation pins the shape: existing children
    /// keep their places, the head component descends into the first
    /// child of that name or into a fresh chain appended last, and
    /// an empty path changes nothing.
    pub fn insert(&mut self, comps: &Vec<String>)
        requires
            old(self).wf(),
        ensures
            final (self).wf(),
            final (self).name == old(self).name,
            final (self).descendant_paths() =~= old(self).descendant_paths().union(
                path_prefixes(views_of(comps@)),
            ),
            inserted(*old(self), views_of(comps@), *final (self)),
    {
        proof {
            assert(views_of(comps@).skip(0) =~= views_of(comps@));
        }
        self.insert_from(comps, 0);
    }

    /// Insert the components of `comps` from position `start` on.
    fn insert_from(&mut self, comps: &Vec<String>, start: usize)
        requires
            old(self).wf(),
            start <= comps@.len(),
        ensures
            final (self).wf(),
            final (self).name == old(self).name,
            final (self).descendant_paths() =~= old(self).descendant_paths().union(
                path_prefixes(views_of(comps@).skip(start as int)),
            ),
            inserted(*old(self), views_of(comps@).skip(start as int), *final (self)),
        decreases comps@.len() - start,
    {
        if start == comps.len() {
            proof {
                assert(path_prefixes(views_of(comps@).skip(start as int))
                    =~= Set::<Seq<Seq<char>>>::empty());
                assert(self.descendant_paths() =~= self.descendant_paths().union(
                    path_prefixes(views_of(comps@).skip(start as int)),
                ));
                lemma_iso_refl(*self);
            }
            return ;
        }
        let ghost t1 = *self;
        let idx: usize = match find_child(&self.children, &comps[start]) {
            Some(i) => i,
            None => {
                let node = TreeNode::new(comps[start].clone());
                self.children.push(node);
                self.children.len() - 1
            },
        };
        let ghost t2 = *self;
        let ghost name = comps@[start as int]@;
        let ghost pushed = t2.children@.len() != t1.children@.len();
        proof {
            assert(t2.children@[idx as int].name@ == name);
            if pushed {
                let n = t1.children@.len() as int;
                assert(t2.children@.take(n) =~= t1.children@);
                assert(t2.children@.last().name@ == name);
                assert forall|i: int, j: int| 0 <= i < j < t2.children@.len() implies names_of(
                    t2.children@,
                )[i] != names_of(t2.children@)[j] by {
                    assert(names_of(t2.children@)[i] == t2.children@[i].name@);
                    assert(names_of(t2.children@)[j] == t2.children@[j].name@);
                    if j < n {
                        assert(t2.children@[i] == t1.children@[i]);
                        assert(t2.children@[j] == t1.children@[j]);
                        assert(names_of(t1.children@)[i] != names_of(t1.children@)[j]);
                        assert(names_of(t1.children@)[i] == t1.children@[i].name@);
                        assert(names_of(t1.children@)[j] == t1.children@[j].name@);
                    } else {
                        assert(t2.children@[i] == t1.children@[i]);
                        assert(t1.children@[i].name@ != name);
                    }
                }
                assert forall|i: int| 0 <= i < t2.children.len() implies (#[trigger] t2.children[i]).wf() by {
                    if i < n {
                        assert(t2.children@[i] == t1.children@[i]);
                        assert(t1.children[i].wf());
                    }
                }
                assert(t2.wf());
                lemma_paths_push_leaf(t1, t2);
                assert(t2.descendant_paths() =~= t1.descendant_paths().insert(seq![name]));
            } else {
                assert(t2 == t1);
            }
            assert(t2.wf());
            assert(t2.children@[idx as int].wf());
        }
        let mut child = self.children.remove(idx);
        child.insert_from(comps, start + 1);
        self.children.insert(idx, child);
        proof {
            let t3 = *self;
            let c_old = t2.children@[idx as int];
            let c_new = t3.children@[idx as int];
            assert(t3.children@ =~= t2.children@.update(idx as int, c_new));
            let added = path_prefixes(views_of(comps@).skip(start + 1));
            lemma_paths_replace_child(t2, t3, idx as int, added);
            lemma_wf_replace_child(t2, t3, idx as int);
            assert(t3.descendant_paths() =~= t2.descendant_paths().union(
                extend_paths(name, added),
            ));
            lemma_prefixes_cons(views_of(comps@), start as int);
            assert(path_prefixes(views_of(comps@).skip(start as int)) =~= extend_paths(
                name,
                added,
            ));
            if pushed {
                assert(extend_paths(name, added).contains(seq![name]));
                assert(t3.descendant_paths() =~= t1.descendant_paths().union(
                    extend_paths(name, added),
                ));
            }
            let vs = views_of(comps@).skip(start as int);
            assert(vs[0] == name);
            assert(vs.skip(1) =~= views_of(comps@).skip(start + 1));
            assert(inserted(c_old, views_of(comps@).skip(start + 1), c_new));
            if pushed {
                let n = t1.children@.len() as int;
                lemma_spec_find_skip(t1.children@, name, n);
                assert(spec_find(t1.children@, name, 0) is None);
                assert forall|k: int| 0 <= k < n implies iso(
                    #[trigger] t3.children@[k],
                    t1.children@[k],
                ) by {
                    assert(t3.children@[k] == t2.children@[k]);
                    assert(t2.children@[k] == t1.children@[k]);
                    lemma_iso_refl(t1.children@[k]);
                }
                assert(c_old.children@.len() == 0 && c_old.name@ == name);
                lemma_inserted_chain(c_old, views_of(comps@).skip(start + 1), c_new, name);
                assert(seq![name] + views_of(comps@).skip(start + 1) =~= vs);
                assert(chain_of(t3.children@.last(), vs));
                assert(inserted(t1, vs, t3));
            } else {
                let i = idx as int;
                lemma_spec_find_skip(t1.children@, name, i);
                assert(spec_find(t1.children@, name, i) == Option::Some(i));
                assert(spec_find(t1.children@, name, 0) == Option::Some(i));
                assert forall|k: int| 0 <= k < t1.children@.len() && k != i implies iso(
                    #[trigger] t3.children@[k],
                    t1.children@[k],
                ) by {
                    assert(t3.children@[k] == t2.children@[k]);
                    lemma_iso_refl(t1.children@[k]);
                }
                assert(inserted(t1, vs, t3));
            }
        }
    }
}

/// Find the index of the first child with the given name, if any.
fn find_child(children: &Vec<TreeNode>, name: &String) -> (r: Option<usize>)
    ensures
        match r {
            Some(i) => i < children@.len() && children@[i as int].name@ == name@ && forall|k: int|
                0 <= k < i ==> (#[trigger] children@[k]).name@ != name@,
            None => forall|k: int|
                0 <= k < children@.len() ==> (#[trigger] children@[k]).name@ != name@,
        },
{
    let mut i: usize = 0;
    loop
        invariant
            i <= children@.len(),
            forall|k: int| 0 <= k < i ==> (#[trigger] children@[k]).name@ != name@,
        decreases children@.len() - i,
    {
        if i == children.len() {
            return None;
        }
        if str_eq(children[i].name.as_str(), name.as_str()) {
            return Some(i);
        }
        i = i + 1;
    }
}

/// The paths of `ps`, each with `name` put in front, together with
/// the one-component path of `name` itself.
pub open spec fn extend_paths(name: Seq<char>, ps: Set<Seq<Seq<char>>>) -> Set<Seq<Seq<char>>> {
    Set::new(
        |p: Seq<Seq<char>>|
            p.len() >= 1 && p[0] == name && (p.len() == 1 || ps.contains(p.skip(1))),
    )
}

/// Appending a fresh leaf child adds exactly the leaf's one-name path.
proof fn lemma_paths_push_leaf(t1: TreeNode, t2: TreeNode)
    requires
        t2.children@.len() == t1.children@.len() + 1,
        t2.children@.take(t1.children@.len() as int) =~= t1.children@,
        t2.children@.last().children@.len() == 0,
    ensures
        t2.descendant_paths() =~= t1.descendant_paths().insert(
            seq![t2.children@.last().name@],
        ),
{
    let n = t1.children@.len() as int;
    let leaf = t2.children@.last();
    assert(leaf.descendant_paths() =~= Set::<Seq<Seq<char>>>::empty());
    assert forall|p: Seq<Seq<char>>| t2.descendant_paths().contains(p) implies t1
        .descendant_paths().insert(seq![leaf.name@]).contains(p) by {
        let i = choose|i: int|
            0 <= i < t2.children.len() && (#[trigger] t2.children[i]).name@ == p[0] && (p.len()
                == 1 || t2.children[i].descendant_paths().contains(p.skip(1)));
        if i < n {
            assert(t1.children@[i] == t2.children@[i]);
            assert(t1.descendant_paths().contains(p));
        } else {
            assert(t2.children@[i] == leaf);
            assert(p.len() == 1);
            assert(p =~= seq![leaf.name@]);
        }
    }
    assert forall|p: Seq<Seq<char>>| t1.descendant_paths().insert(seq![leaf.name@]).contains(
        p,
    ) implies t2.descendant_paths().contains(p) by {
        if p == seq![leaf.name@] {
            let i = n;
            assert(0 <= i < t2.children.len() && t2.children[i].name@ == p[0] && p.len() == 1);
        } else {
            assert(t1.descendant_paths().contains(p));
            let i = choose|i: int|
                0 <= i < t1.children.len() && (#[trigger] t1.children[i]).name@ == p[0] && (p.len()
                    == 1 || t1.children[i].descendant_paths().contains(p.skip(1)));
            assert(t2.children@[i] == t1.children@[i]);
            assert(0 <= i < t2.children.len() && t2.children[i].name@ == p[0] && (p.len() == 1
                || t2.children[i].descendant_paths().contains(p.skip(1))));
        }
    }
}

/// Replacing the child at `idx` by one with the same name whose paths
/// grew by `added` grows the parent's paths by `added` behind that
/// name (and the name itself).
proof fn lemma_paths_replace_child(t2: TreeNode, t3: TreeNode, idx: int, added: Set<Seq<Seq<char>>>)
    requires
        t2.wf(),
        0 <= idx < t2.children@.len(),
        t3.children@ =~= t2.children@.update(idx, t3.children@[idx]),
        t3.children@.len() == t2.children@.len(),
        t3.children@[idx].name@ == t2.children@[idx].name@,
        t3.children@[idx].descendant_paths() =~= t2.children@[idx].descendant_paths().union(added),
    ensures
        t3.descendant_paths() =~= t2.descendant_paths().union(
            extend_paths(t2.children@[idx].name@, added),
        ),
{
    let name = t2.children@[idx].name@;
    let c_old = t2.children@[idx];
    let c_new = t3.children@[idx];
    assert forall|p: Seq<Seq<char>>| t3.descendant_paths().contains(p) implies t2
        .descendant_paths().union(extend_paths(name, added)).contains(p) by {
        let i = choose|i: int|
            0 <= i < t3.children.len() && (#[trigger] t3.children[i]).name@ == p[0] && (p.len()
                == 1 || t3.children[i].descendant_paths().contains(p.skip(1)));
        if i != idx {
            assert(t2.children@[i] == t3.children@[i]);
            assert(t2.descendant_paths().contains(p));
        } else {
            if p.len() == 1 {
                assert(p[0] == name);
                assert(t2.descendant_paths().contains(p));
            } else if c_old.descendant_paths().contains(p.skip(1)) {
                assert(t2.descendant_paths().contains(p));
            } else {
                assert(added.contains(p.skip(1)));
                assert(extend_paths(name, added).contains(p));
            }
        }
    }
    assert forall|p: Seq<Seq<char>>| t2.descendant_paths().union(extend_paths(name, added))
        .contains(p) implies t3.descendant_paths().contains(p) by {
        if t2.descendant_paths().contains(p) {
            let i = choose|i: int|
                0 <= i < t2.children.len() && (#[trigger] t2.children[i]).name@ == p[0] && (p.len()
                    == 1 || t2.children[i].descendant_paths().contains(p.skip(1)));
            if i != idx {
                assert(t3.children@[i] == t2.children@[i]);
                assert(0 <= i < t3.children.len() && t3.children[i].name@ == p[0] && (p.len() == 1
                    || t3.children[i].descendant_paths().contains(p.skip(1))));
            } else {
                assert(0 <= idx < t3.children.len() && t3.children[idx].name@ == p[0] && (p.len()
                    == 1 || t3.children[idx].descendant_paths().contains(p.skip(1))));
            }
        } else {
            assert(extend_paths(name, added).contains(p));
            assert(p[0] == name);
            if p.len() > 1 {
                assert(added.contains(p.skip(1)));
                assert(c_new.descendant_paths().contains(p.skip(1)));
            }
            assert(0 <= idx < t3.children.len() && t3.children[idx].name@ == p[0] && (p.len() == 1
                || t3.children[idx].descendant_paths().contains(p.skip(1))));
        }
    }
}

/// Replacing a child by a well-formed child with the same name keeps
/// the parent well-formed.
proof fn lemma_wf_replace_child(t2: TreeNode, t3: TreeNode, idx: int)
    requires
        t2.wf(),
        0 <= idx < t2.children@.len(),
        t3.children@ =~= t2.children@.update(idx, t3.children@[idx]),
        t3.children@[idx].name@ == t2.children@[idx].name@,
        t3.children@[idx].wf(),
    ensures
        t3.wf(),
{
    assert(names_of(t3.children@) =~= names_of(t2.children@));
    assert forall|i: int| 0 <= i < t3.children.len() implies (#[trigger] t3.children[i]).wf() by {
        if i != idx {
            assert(t3.children@[i] == t2.children@[i]);
            assert(t2.children[i].wf());
        }
    }
}

/// A non-empty component sequence's prefixes are its head alone plus
/// every prefix of its tail behind the head.
proof fn lemma_prefixes_cons(vs: Seq<Seq<char>>, start: int)
    requires
        0 <= start < vs.len(),
    ensures
        path_prefixes(vs.skip(start)) =~= extend_paths(vs[start], path_prefixes(vs.skip(start + 1))),
{
    let tail = vs.skip(start);
    let rest = vs.skip(start + 1);
    assert forall|q: Seq<Seq<char>>| path_prefixes(tail).contains(q) implies extend_paths(
        vs[start],
        path_prefixes(rest),
    ).contains(q) by {
        assert(q == tail.take(q.len() as int));
        assert(q[0] == tail[0]);
        assert(tail[0] == vs[start]);
        if q.len() > 1 {
            assert(q.skip(1) =~= rest.take(q.len() - 1));
            assert(path_prefixes(rest).contains(q.skip(1)));
        }
    }
    assert forall|q: Seq<Seq<char>>| extend_paths(vs[start], path_prefixes(rest)).contains(
        q,
    ) implies path_prefixes(tail).contains(q) by {
        if q.len() == 1 {
            assert(q =~= tail.take(1));
        } else {
            assert(q.skip(1) == rest.take(q.len() - 1));
            assert(q.len() - 1 <= rest.len());
            assert forall|k: int| 0 <= k < q.len() implies q[k] == tail.take(q.len() as int)[k] by {
                if k > 0 {
                    assert(q[k] == q.skip(1)[k - 1]);
                    assert(q.skip(1)[k - 1] == rest.take(q.len() - 1)[k - 1]);
                    assert(rest[k - 1] == tail[k]);
                }
            }
            assert(q =~= tail.take(q.len() as int));
        }
    }
}


/// Pairwise distinctness of the elements of a sequence.
pub open spec fn distinct_seq<X>(s: Seq<X>) -> bool {
    forall|i: int, j: int| 0 <= i < j < s.len() ==> s[i] != s[j]
}

/// The paths that a list of children contributes to their parent.
pub open spec fn paths_of_children(cs: Seq<TreeNode>) -> Set<Seq<Seq<char>>> {
    Set::new(
        |p: Seq<Seq<char>>|
            p.len() >= 1 && exists|i: int|
                0 <= i < cs.len() && (#[trigger] cs[i]).name@ == p[0] && (p.len() == 1
                    || cs[i].descendant_paths().contains(p.skip(1))),
    )
}

/// A node's descendant paths are those contributed by its children.
proof fn lemma_paths_of_children(t: TreeNode)
    ensures
        t.descendant_paths() =~= paths_of_children(t.children@),
{
}

/// Splitting off the first child splits the contributed paths.
proof fn lemma_paths_split_first(cs: Seq<TreeNode>)
    requires
        cs.len() > 0,
    ensures
        paths_of_children(cs) =~= child_paths(cs[0]).union(paths_of_children(cs.skip(1))),
{
    assert forall|p: Seq<Seq<char>>| paths_of_children(cs).contains(p) implies child_paths(
        cs[0],
    ).union(paths_of_children(cs.skip(1))).contains(p) by {
        let i = choose|i: int|
            0 <= i < cs.len() && (#[trigger] cs[i]).name@ == p[0] && (p.len() == 1
                || cs[i].descendant_paths().contains(p.skip(1)));
        if i > 0 {
            assert(cs.skip(1)[i - 1] == cs[i]);
            assert(paths_of_children(cs.skip(1)).contains(p));
        }
    }
    assert forall|p: Seq<Seq<char>>| child_paths(cs[0]).union(paths_of_children(cs.skip(1)))
        .contains(p) implies paths_of_children(cs).contains(p) by {
        if child_paths(cs[0]).contains(p) {
            assert(0 <= 0 < cs.len() && cs[0].name@ == p[0] && (p.len() == 1
                || cs[0].descendant_paths().contains(p.skip(1))));
        } else {
            let i = choose|i: int|
                0 <= i < cs.skip(1).len() && (#[trigger] cs.skip(1)[i]).name@ == p[0] && (p.len()
                    == 1 || cs.skip(1)[i].descendant_paths().contains(p.skip(1)));
            assert(cs[i + 1] == cs.skip(1)[i]);
            assert(0 <= i + 1 < cs.len() && cs[i + 1].name@ == p[0] && (p.len() == 1 || cs[i
                + 1].descendant_paths().contains(p.skip(1))));
        }
    }
}

/// Inserting a child anywhere adds exactly the paths it contributes.
proof fn lemma_paths_insert_child(cs: Seq<TreeNode>, k: int, c: TreeNode)
    requires
        0 <= k <= cs.len(),
    ensures
        paths_of_children(cs.insert(k, c)) =~= paths_of_children(cs).union(child_paths(c)),
{
    let cs2 = cs.insert(k, c);
    assert forall|p: Seq<Seq<char>>| paths_of_children(cs2).contains(p) implies paths_of_children(
        cs,
    ).union(child_paths(c)).contains(p) by {
        let i = choose|i: int|
            0 <= i < cs2.len() && (#[trigger] cs2[i]).name@ == p[0] && (p.len() == 1
                || cs2[i].descendant_paths().contains(p.skip(1)));
        if i == k {
            assert(cs2[i] == c);
            assert(child_paths(c).contains(p));
        } else if i < k {
            assert(cs2[i] == cs[i]);
            assert(paths_of_children(cs).contains(p));
        } else {
            assert(cs2[i] == cs[i - 1]);
            assert(0 <= i - 1 < cs.len() && cs[i - 1].name@ == p[0] && (p.len() == 1 || cs[i
                - 1].descendant_paths().contains(p.skip(1))));
        }
    }
    assert forall|p: Seq<Seq<char>>| paths_of_children(cs).union(child_paths(c)).contains(
        p,
    ) implies paths_of_children(cs2).contains(p) by {
        if child_paths(c).contains(p) {
            assert(cs2[k] == c);
            assert(0 <= k < cs2.len() && cs2[k].name@ == p[0] && (p.len() == 1
                || cs2[k].descendant_paths().contains(p.skip(1))));
        } else {
            let i = choose|i: int|
                0 <= i < cs.len() && (#[trigger] cs[i]).name@ == p[0] && (p.len() == 1
                    || cs[i].descendant_paths().contains(p.skip(1)));
            if i < k {
                assert(cs2[i] == cs[i]);
                assert(0 <= i < cs2.len() && cs2[i].name@ == p[0] && (p.len() == 1
                    || cs2[i].descendant_paths().contains(p.skip(1))));
            } else {
                assert(cs2[i + 1] == cs[i]);
                assert(0 <= i + 1 < cs2.len() && cs2[i + 1].name@ == p[0] && (p.len() == 1 || cs2[i
                    + 1].descendant_paths().contains(p.skip(1))));
            }
        }
    }
}

/// Moving an element from the front of `b` into `a` at position `k`
/// keeps the combined elements pairwise distinct.
proof fn lemma_distinct_move<X>(a: Seq<X>, b: Seq<X>, k: int)
    requires
        0 <= k <= a.len(),
        b.len() > 0,
        distinct_seq(a + b),
    ensures
        distinct_seq(a.insert(k, b[0]) + b.skip(1)),
{
    let c1 = a + b;
    let c2 = a.insert(k, b[0]) + b.skip(1);
    let al = a.len() as int;
    let pos = |i: int|
        if i < k {
            i
        } else if i == k {
            al
        } else if i <= al {
            i - 1
        } else {
            i
        };
    assert forall|i: int| 0 <= i < c2.len() implies c2[i] == c1[pos(i)] by {
        if i < k {
            assert(c2[i] == a[i]);
        } else if i == k {
            assert(c2[i] == b[0]);
        } else if i <= al {
            assert(c2[i] == a.insert(k, b[0])[i]);
            assert(a.insert(k, b[0])[i] == a[i - 1]);
        } else {
            assert(c2[i] == b.skip(1)[i - al - 1]);
            assert(b.skip(1)[i - al - 1] == b[i - al]);
            assert(c1[i] == b[i - al]);
        }
    }
    assert forall|i: int, j: int| 0 <= i < j < c2.len() implies c2[i] != c2[j] by {
        assert(c2[i] == c1[pos(i)]);
        assert(c2[j] == c1[pos(j)]);
        assert(pos(i) != pos(j));
        if pos(i) < pos(j) {
            assert(c1[pos(i)] != c1[pos(j)]);
        } else {
            assert(c1[pos(j)] != c1[pos(i)]);
        }
    }
}

/// Find the position before the first child whose name `name` must precede.
fn lower_pos_child(out: &Vec<TreeNode>, name: &String) -> (i: usize)
    ensures
        i <= out@.len(),
        forall|k: int| 0 <= k < i ==> #[trigger] lex_le(names_of(out@)[k], name@),
        i < out@.len() ==> !lex_le(names_of(out@)[i as int], name@),
{
    let mut i: usize = 0;
    loop
        invariant
            i <= out@.len(),
            forall|k: int| 0 <= k < i ==> #[trigger] lex_le(names_of(out@)[k], name@),
        decreases out@.len() - i,
    {
        if i == out.len() {
            return i;
        }
        if !str_le(out[i].name.as_str(), name.as_str()) {
            proof {
                assert(names_of(out@)[i as int] == out@[i as int].name@);
            }
            return i;
        }
        proof {
            assert(names_of(out@)[i as int] == out@[i as int].name@);
        }
        i = i + 1;
    }
}

/// Insert the child `c` into `out`, keeping the names sorted.
fn insert_child_sorted(out: &mut Vec<TreeNode>, c: TreeNode) -> (k: usize)
    requires
        strings_sorted(names_of(old(out)@)),
    ensures
        k <= old(out)@.len(),
        final (out)@ =~= old(out)@.insert(k as int, c),
        strings_sorted(names_of(final (out)@)),
{
    let k = lower_pos_child(out, &c.name);
    let ghost pre = out@;
    let ghost kk = k as int;
    let ghost cname = c.name@;
    out.insert(k, c);
    proof {
        let vs = names_of(out@);
        let old_vs = names_of(pre);
        assert(vs =~= old_vs.insert(kk, cname));
        crate::strutil::lemma_sorted_insert_mid(old_vs, kk, cname);
    }
    k
}

impl TreeNode {
    /// Recursively sort this node's children by name.  The tree's
    /// shape — its name and its set of descendant paths — is kept.
    pub fn sort(&mut self)
        requires
            old(self).wf(),
        ensures
            final (self).wf(),
            final (self).sorted(),
            final (self).name == old(self).name,
            final (self).descendant_paths() =~= old(self).descendant_paths(),
    {
        let mut tmp = TreeNode { name: String::new(), children: Vec::new() };
        core::mem::swap(self, &mut tmp);
        let sorted = sort_node(tmp);
        *self = sorted;
    }
}

/// Sort a node's children by name, recursively.
#[verifier::loop_isolation(false)]
fn sort_node(t: TreeNode) -> (r: TreeNode)
    requires
        t.wf(),
    ensures
        r.wf(),
        r.sorted(),
        r.name == t.name,
        r.descendant_paths() =~= t.descendant_paths(),
    decreases t,
{
    let ghost t0 = t;
    let TreeNode { name, mut children } = t;
    let ghost cs0 = children@;
    let mut out: Vec<TreeNode> = Vec::new();
    proof {
        assert(names_of(out@) =~= Seq::<Seq<char>>::empty());
        assert(names_of(out@) + names_of(children@) =~= names_of(cs0));
        assert(distinct_seq(names_of(cs0)));
        assert(paths_of_children(out@) =~= Set::<Seq<Seq<char>>>::empty());
        assert(paths_of_children(out@).union(paths_of_children(children@)) =~= paths_of_children(
            cs0,
        ));
    }
    while children.len() > 0
        invariant
            strings_sorted(names_of(out@)),
            distinct_seq(names_of(out@) + names_of(children@)),
            forall|i: int| 0 <= i < out@.len() ==> (#[trigger] out@[i]).wf(),
            forall|i: int| 0 <= i < out@.len() ==> (#[trigger] out@[i]).sorted(),
            forall|i: int| 0 <= i < children@.len() ==> (#[trigger] children@[i]).wf(),
            forall|i: int|
                0 <= i < children@.len() ==> decreases_to!(t0 => (#[trigger] children@[i])),
            paths_of_children(out@).union(paths_of_children(children@)) =~= paths_of_children(cs0),
        decreases children@.len(),
    {
        let ghost pre_children = children@;
        let ghost pre_out = out@;
        let child = children.remove(0);
        proof {
            assert(decreases_to!(t0 => child));
        }
        let child_s = sort_node(child);
        proof {
            assert(child_paths(child_s) =~= child_paths(child));
            assert(names_of(pre_out) + names_of(pre_children) =~= (names_of(pre_out) + names_of(
                pre_children,
            )));
        }
        let k = insert_child_sorted(&mut out, child_s);
        proof {
            assert(out@ =~= pre_out.insert(k as int, child_s));
            assert(names_of(out@) =~= names_of(pre_out).insert(k as int, child_s.name@));
            lemma_paths_insert_child(pre_out, k as int, child_s);
            lemma_paths_split_first(pre_children);
            assert(children@ =~= pre_children.skip(1));
            assert(names_of(children@) =~= names_of(pre_children).skip(1));
            lemma_distinct_move(names_of(pre_out), names_of(pre_children), k as int);
            assert(names_of(pre_out).insert(k as int, names_of(pre_children)[0]) + names_of(
                pre_children,
            ).skip(1) =~= names_of(out@) + names_of(children@));
            assert(paths_of_children(out@).union(paths_of_children(children@))
                =~= paths_of_children(cs0));
            assert forall|i: int| 0 <= i < out@.len() implies (#[trigger] out@[i]).wf()
                && (#[trigger] out@[i]).sorted() by {
                if i < k {
                    assert(out@[i] == pre_out[i]);
                } else if i > k {
                    assert(out@[i] == pre_out[i - 1]);
                }
            }
        }
    }
    proof {
        assert(paths_of_children(children@) =~= Set::<Seq<Seq<char>>>::empty());
        assert(paths_of_children(out@) =~= paths_of_children(cs0));
    }
    let r = TreeNode { name, children: out };
    proof {
        assert(names_of(out@) + names_of(children@) =~= names_of(out@));
        assert(r.wf());
        assert(r.sorted());
        lemma_paths_of_children(r);
        lemma_paths_of_children(t0);
        assert(r.descendant_paths() =~= t0.descendant_paths());
    }
    r
}


/// The rendering of the first `i` children of `cs`, in order, each
/// under the indentation `prefix`.
pub open spec fn spec_render_children(cs: Seq<TreeNode>, prefix: Seq<char>, i: int) -> Seq<char>
    decreases cs, i,
{
    if i <= 0 || i > cs.len() {
        Seq::<char>::empty()
    } else {
        spec_render_children(cs, prefix, i - 1) + spec_render(
            cs[i - 1],
            prefix,
            i - 1 == cs.len() - 1,
        )
    }
}

/// The rendering of a node and its subtree as ASCII-art lines: a
/// branch glyph after `prefix`, the node's name, and the children
/// under an indentation that extends `prefix` by one connector column.
pub open spec fn spec_render(t: TreeNode, prefix: Seq<char>, is_last: bool) -> Seq<char>
    decreases t, 0int,
{
    prefix + (if is_last {
        "└── "@
    } else {
        "├── "@
    }) + t.name@ + "\n"@ + spec_render_children(
        t.children@,
        prefix + (if is_last {
            "    "@
        } else {
            "│   "@
        }),
        t.children@.len() as int,
    )
}

impl TreeNode {
    /// Render this node and its subtree as an ASCII tree.
    ///
    /// `prefix` is the accumulated indent, `is_last` whether this node
    /// is the last child at its level (to pick the branch glyph).
    #[verifier::loop_isolation(false)]
    pub fn fmt(&self, prefix: &str, is_last: bool) -> (r: String)
        ensures
            r@ == spec_render(*self, prefix@, is_last),
        decreases *self,
    {
        let mut out = String::new();
        out.append(prefix);
        if is_last {
            out.append("└── ");
        } else {
            out.append("├── ");
        }
        out.append(self.name.as_str());
        out.append("\n");
        let mut np = String::new();
        np.append(prefix);
        if is_last {
            np.append("    ");
        } else {
            np.append("│   ");
        }
        let ghost head = out@;
        let n = self.children.len();
        let mut i: usize = 0;
        while i < n
            invariant
                i <= n,
                out@ == head + spec_render_children(self.children@, np@, i as int),
            decreases n - i,
        {
            let line = self.children[i].fmt(np.as_str(), i == n - 1);
            out.append(line.as_str());
            i = i + 1;
        }
        out
    }
}

/// The full rendering of a tree: the root's own name on its first
/// line, then all descendants, each on one glyph-prefixed line.
pub open spec fn spec_render_tree(t: TreeNode) -> Seq<char> {
    t.name@ + "\n"@ + spec_render_children(t.children@, Seq::<char>::empty(), t.children@.len() as int)
}

/// Render a whole tree, starting with the bare root label.
pub fn render_tree(t: &TreeNode) -> (r: String)
    ensures
        r@ == spec_render_tree(*t),
{
    let mut out = String::new();
    out.append(t.name.as_str());
    out.append("\n");
    let ghost head = out@;
    let n = t.children.len();
    let mut i: usize = 0;
    proof {
        assert(head + spec_render_children(t.children@, Seq::<char>::empty(), 0) =~= head);
    }
    while i < n
        invariant
            i <= n,
            n == t.children@.len(),
            out@ == head + spec_render_children(t.children@, Seq::<char>::empty(), i as int),
        decreases n - i,
    {
        let line = t.children[i].fmt("", i == n - 1);
        out.append(line.as_str());
        proof {
            reveal_strlit("");
            assert(""@ =~= Seq::<char>::empty());
        }
        i = i + 1;
    }
    out
}


/// The tree paths that a list of discovered files induces under
/// `root`: for every file lying under `root`, all non-empty prefixes
/// of its relative path's components.  Files elsewhere contribute
/// nothing.
pub open spec fn tree_paths(root: Seq<char>, files: Seq<Seq<char>>) -> Set<Seq<Seq<char>>>
    decreases files.len(),
{
    if files.len() == 0 {
        Set::<Seq<Seq<char>>>::empty()
    } else {
        tree_paths(root, files.drop_last()).union(
            if spec_is_under(root, files.last()) {
                path_prefixes(spec_components(spec_rel_path(root, files.last())))
            } else {
                Set::<Seq<Seq<char>>>::empty()
            },
        )
    }
}

/// The label of the root node for a root path: its last component,
/// or "." where it has none.
pub open spec fn spec_root_label(root: Seq<char>) -> Seq<char> {
    match spec_file_name(root) {
        Option::Some(n) => n,
        Option::None => "."@,
    }
}

/// The chain of trees a build pass runs through: `steps` starts at
/// a childless node carrying `label` and ends at `t`; step by step,
/// a file lying under `root` inserts its relative components, and
/// any other file changes nothing.
pub open spec fn build_steps(
    root: Seq<char>,
    label: Seq<char>,
    files: Seq<Seq<char>>,
    steps: Seq<TreeNode>,
    t: TreeNode,
) -> bool {
    &&& steps.len() == files.len() + 1
    &&& steps[0].name@ == label
    &&& steps[0].children@.len() == 0
    &&& steps.last() == t
    &&& forall|i: int|
        0 <= i < files.len() ==> (if spec_is_under(root, files[i]) {
            inserted(
                steps[i],
                spec_components(spec_rel_path(root, files[i])),
                #[trigger] steps[i + 1],
            )
        } else {
            iso(steps[i + 1], steps[i])
        })
}

/// How building rewrites a fresh root node, file by file.
pub open spec fn built_from(
    root: Seq<char>,
    label: Seq<char>,
    files: Seq<Seq<char>>,
    t: TreeNode,
) -> bool {
    exists|steps: Seq<TreeNode>| #[trigger] build_steps(root, label, files, steps, t)
}

/// Build the directory tree of the given discovered files, relative
/// to `root`, under a root node labelled `root_name`.  The result is
/// the fold of one insertion per file, in list order.
pub fn build_tree(root_name: String, root: &str, files: &Vec<String>) -> (t: TreeNode)
    ensures
        t.wf(),
        t.name == root_name,
        t.descendant_paths() =~= tree_paths(root@, views_of(files@)),
        built_from(root@, root_name@, views_of(files@), t),
{
    let mut t = TreeNode::new(root_name);
    let ghost mut steps: Seq<TreeNode> = seq![t];
    let mut i: usize = 0;
    proof {
        assert(views_of(files@).take(0) =~= Seq::<Seq<char>>::empty());
        assert(build_steps(root@, root_name@, views_of(files@).take(0), steps, t));
    }
    while i < files.len()
        invariant
            i <= files@.len(),
            t.wf(),
            t.name == root_name,
            t.descendant_paths() =~= tree_paths(root@, views_of(files@).take(i as int)),
            build_steps(root@, root_name@, views_of(files@).take(i as int), steps, t),
        decreases files@.len() - i,
    {
        let ghost pre = t.descendant_paths();
        let ghost mid = t;
        let ghost presteps = steps;
        match crate::strutil::rel_path(root, files[i].as_str()) {
            Option::Some(rel) => {
                let comps = split_components(rel.as_str());
                t.insert(&comps);
            },
            Option::None => {},
        }
        proof {
            let vs = views_of(files@);
            assert(vs.take(i + 1).drop_last() =~= vs.take(i as int));
            assert(vs.take(i + 1).last() == vs[i as int]);
            if spec_is_under(root@, vs[i as int]) {
                assert(t.descendant_paths() =~= pre.union(
                    path_prefixes(spec_components(spec_rel_path(root@, vs[i as int]))),
                ));
                assert(inserted(mid, spec_components(spec_rel_path(root@, vs[i as int])), t));
            } else {
                assert(t.descendant_paths() =~= pre);
                assert(tree_paths(root@, vs.take(i + 1)) =~= tree_paths(root@, vs.take(i as int)));
                assert(t == mid);
                lemma_iso_refl(t);
            }
            assert(t.descendant_paths() =~= tree_paths(root@, vs.take(i + 1)));
            steps = steps.push(t);
            assert forall|k: int| 0 <= k < vs.take(i + 1).len() implies (if spec_is_under(
                root@,
                vs.take(i + 1)[k],
            ) {
                inserted(
                    steps[k],
                    spec_components(spec_rel_path(root@, vs.take(i + 1)[k])),
                    #[trigger] steps[k + 1],
                )
            } else {
                iso(steps[k + 1], steps[k])
            }) by {
                if k < i {
                    assert(steps[k] == presteps[k]);
                    assert(steps[k + 1] == presteps[k + 1]);
                    assert(vs.take(i + 1)[k] == vs.take(i as int)[k]);
                } else {
                    assert(steps[k] == mid);
                    assert(steps[k + 1] == t);
                }
            }
            assert(build_steps(root@, root_name@, vs.take(i + 1), steps, t));
        }
        i = i + 1;
    }
    proof {
        assert(views_of(files@).take(files@.len() as int) =~= views_of(files@));
        assert(build_steps(root@, root_name@, views_of(files@), steps, t));
    }
    t
}

/// Compute the root label for a root path.
pub fn root_label(root: &str) -> (r: String)
    ensures
        r@ == spec_root_label(root@),
{
    match crate::strutil::file_name_of(root) {
        Option::Some(n) => n,
        Option::None => {
            let s: String = String::from_str(".");
            s
        },
    }
}

/// What a successful tree rendering promises: the output `s` renders
/// a well-formed tree whose root carries the last component of the
/// (separator-trimmed) root path, whose paths are those induced by
/// some discovered file list in which every path is the root or
/// lies under it free of every exclusion, and whose children are
/// name-ordered when `sort` is set.
pub open spec fn tree_output_ok(
    root: Seq<char>,
    excludes: Seq<Seq<char>>,
    sort: bool,
    s: Seq<char>,
) -> bool {
    exists|t: TreeNode, files: Seq<Seq<char>>|
        #![trigger tree_paths(root, files), spec_render_tree(t)]
        {
            &&& t.wf()
            &&& (sort ==> t.sorted())
            &&& t.name@ == spec_root_label(root)
            &&& t.descendant_paths() == tree_paths(root, files)
            &&& (sort ==> crate::strutil::strings_sorted(files))
            &&& (forall|k: int|
                0 <= k < files.len() ==> #[trigger] crate::files::discovered_ok(
                    excludes,
                    root,
                    files[k],
                ))
            &&& (!sort ==> built_from(root, spec_root_label(root), files, t))
            &&& s == spec_render_tree(t)
        }
}

/// Build a directory-tree string of `path`, honoring ignores and
/// excludes.  Trailing separators on the root are ignored.
pub fn collect_tree(path: &str, excludes: &Vec<String>, sort: bool) -> (r: Result<
    String,
    crate::files::CopycatError,
>)
    ensures
        r matches Ok(s) ==> tree_output_ok(
            crate::strutil::spec_trim_slashes(path@),
            views_of(excludes@),
            sort,
            s@,
        ),
        r matches Err(e) ==> !(e is NoFiles),
{
    let rn = crate::strutil::trim_trailing_slashes(path);
    proof {
        crate::strutil::lemma_trim_slashes_idempotent(path@);
    }
    let files = match crate::files::collect_files(rn.as_str(), excludes, sort) {
        Ok(fs) => fs,
        Err(e) => {
            return Err(e);
        },
    };
    let name = root_label(rn.as_str());
    let mut t = build_tree(name, rn.as_str(), &files);
    if sort {
        t.sort();
    }
    let out = render_tree(&t);
    proof {
        let tw = t;
        let fvs = views_of(files@);
        let rv = crate::strutil::spec_trim_slashes(path@);
        assert(tw.descendant_paths() == tree_paths(rv, fvs));
        assert(tw.wf());
        assert(sort ==> tw.sorted());
        assert(tw.name@ == spec_root_label(rv));
        assert(sort ==> crate::strutil::strings_sorted(fvs));
        assert(!sort ==> built_from(rv, spec_root_label(rv), fvs, tw));
        assert(forall|k: int|
            0 <= k < fvs.len() ==> #[trigger] crate::files::discovered_ok(
                views_of(excludes@),
                rv,
                fvs[k],
            ));
        assert(out@ == spec_render_tree(tw));
        assert({
            &&& tw.wf()
            &&& (sort ==> tw.sorted())
            &&& tw.name@ == spec_root_label(rv)
            &&& tw.descendant_paths() == tree_paths(rv, fvs)
            &&& (sort ==> crate::strutil::strings_sorted(fvs))
            &&& (forall|k: int|
                0 <= k < fvs.len() ==> #[trigger] crate::files::discovered_ok(
                    views_of(excludes@),
                    rv,
                    fvs[k],
                ))
            &&& (!sort ==> built_from(rv, spec_root_label(rv), fvs, tw))
            &&& out@ == spec_render_tree(tw)
        });
        assert(tree_output_ok(rv, views_of(excludes@), sort, out@));
    }
    Ok(out)
}


/// Trees of the same shape: equal names and, child for child in
/// order, isomorphic subtrees.
pub open spec fn iso(a: TreeNode, b: TreeNode) -> bool
    decreases a,
{
    &&& a.name@ == b.name@
    &&& a.children@.len() == b.children@.len()
    &&& forall|i: int|
        0 <= i < a.children@.len() ==> iso(#[trigger] a.children@[i], b.children@[i])
}

/// The subtree paths behind one child name: what remains of each
/// path in `s` that starts with `name`.
pub open spec fn paths_under(s: Set<Seq<Seq<char>>>, name: Seq<char>) -> Set<Seq<Seq<char>>> {
    Set::new(|q: Seq<Seq<char>>| q.len() >= 1 && s.contains(seq![name] + q))
}

/// In a well-formed tree, a child's descendant paths are recovered
/// from the parent's by stripping the child's name.
proof fn lemma_child_paths_extract(t: TreeNode, i: int)
    requires
        t.wf(),
        0 <= i < t.children@.len(),
    ensures
        t.children@[i].descendant_paths() =~= paths_under(
            t.descendant_paths(),
            t.children@[i].name@,
        ),
{
    let c = t.children@[i];
    let name = c.name@;
    assert forall|q: Seq<Seq<char>>| c.descendant_paths().contains(q) implies paths_under(
        t.descendant_paths(),
        name,
    ).contains(q) by {
        let p = seq![name] + q;
        assert(p[0] == name);
        assert(p.skip(1) =~= q);
        assert(0 <= i < t.children.len() && t.children[i].name@ == p[0] && (p.len() == 1
            || t.children[i].descendant_paths().contains(p.skip(1))));
        assert(t.descendant_paths().contains(p));
    }
    assert forall|q: Seq<Seq<char>>| paths_under(t.descendant_paths(), name).contains(
        q,
    ) implies c.descendant_paths().contains(q) by {
        let p = seq![name] + q;
        assert(t.descendant_paths().contains(p));
        let j = choose|j: int|
            0 <= j < t.children.len() && (#[trigger] t.children[j]).name@ == p[0] && (p.len() == 1
                || t.children[j].descendant_paths().contains(p.skip(1)));
        if j != i {
            assert(names_of(t.children@)[j] == t.children@[j].name@);
            assert(names_of(t.children@)[i] == t.children@[i].name@);
            assert(false);
        }
        assert(p.len() == 1 + q.len() >= 2);
        assert(p.skip(1) =~= q);
    }
}

/// A name heads some descendant path exactly when a child carries it.
proof fn lemma_singleton_path_is_child_name(t: TreeNode, name: Seq<char>)
    ensures
        t.descendant_paths().contains(seq![name]) <==> names_of(t.children@).contains(name),
{
    if t.descendant_paths().contains(seq![name]) {
        let p: Seq<Seq<char>> = seq![name];
        let j = choose|j: int|
            0 <= j < t.children.len() && (#[trigger] t.children[j]).name@ == p[0] && (p.len() == 1
                || t.children[j].descendant_paths().contains(p.skip(1)));
        assert(names_of(t.children@)[j] == name);
    }
    if names_of(t.children@).contains(name) {
        let j = choose|j: int| 0 <= j < names_of(t.children@).len() && names_of(t.children@)[j] == name;
        let p: Seq<Seq<char>> = seq![name];
        assert(t.children@[j].name@ == name);
        assert(0 <= j < t.children.len() && t.children[j].name@ == p[0] && p.len() == 1);
        assert(t.descendant_paths().contains(p));
    }
}

/// Two sorted sequences without duplicates and with the same
/// elements are equal.
proof fn lemma_sorted_distinct_same_elements(a: Seq<Seq<char>>, b: Seq<Seq<char>>)
    requires
        strings_sorted(a),
        strings_sorted(b),
        distinct_seq(a),
        distinct_seq(b),
        forall|x: Seq<char>| a.contains(x) <==> b.contains(x),
    ensures
        a =~= b,
{
    a.to_multiset_ensures();
    b.to_multiset_ensures();
    assert(a.no_duplicates()) by {
        assert(forall|i: int, j: int| 0 <= i < j < a.len() ==> a[i] != a[j]);
        assert forall|i: int, j: int| i != j && 0 <= i < a.len() && 0 <= j < a.len() implies a[i]
            != a[j] by {
            if i < j {
            } else {
                assert(a[j] != a[i]);
            }
        }
    }
    assert(b.no_duplicates()) by {
        assert forall|i: int, j: int| i != j && 0 <= i < b.len() && 0 <= j < b.len() implies b[i]
            != b[j] by {
            if i < j {
            } else {
                assert(b[j] != b[i]);
            }
        }
    }
    a.lemma_multiset_has_no_duplicates();
    b.lemma_multiset_has_no_duplicates();
    assert(a.to_multiset() =~= b.to_multiset()) by {
        assert forall|x: Seq<char>| true implies a.to_multiset().count(x) == b.to_multiset().count(
            x,
        ) by {
            if a.contains(x) {
                assert(b.contains(x));
                assert(a.to_multiset().count(x) > 0 && b.to_multiset().count(x) > 0);
                assert(a.to_multiset().count(x) == 1 && b.to_multiset().count(x) == 1);
            } else {
                assert(!b.contains(x));
                assert(a.to_multiset().count(x) == 0 && b.to_multiset().count(x) == 0);
            }
        }
    }
    crate::strutil::lemma_strings_sorted_is_sorted_by(a);
    crate::strutil::lemma_strings_sorted_is_sorted_by(b);
    crate::strutil::lemma_lex_le_total_ordering();
    vstd::seq_lib::lemma_sorted_unique(a, b, crate::strutil::lex_le_fun());
}

/// Law: a tree's shape is determined by its name and its set of
/// descendant paths once a sort pass has put the children in order.
/// Two well-formed, sorted trees that carry the same name and the
/// same descendant paths are isomorphic.
pub proof fn lemma_sorted_shape_determined(a: TreeNode, b: TreeNode)
    requires
        a.wf(),
        b.wf(),
        a.sorted(),
        b.sorted(),
        a.name@ == b.name@,
        a.descendant_paths() == b.descendant_paths(),
    ensures
        iso(a, b),
    decreases a,
{
    let an = names_of(a.children@);
    let bn = names_of(b.children@);
    assert forall|x: Seq<char>| an.contains(x) implies bn.contains(x) by {
        lemma_singleton_path_is_child_name(a, x);
        lemma_singleton_path_is_child_name(b, x);
    }
    assert forall|x: Seq<char>| bn.contains(x) implies an.contains(x) by {
        lemma_singleton_path_is_child_name(a, x);
        lemma_singleton_path_is_child_name(b, x);
    }
    assert(distinct_seq(an)) by {
        assert(forall|i: int, j: int| 0 <= i < j < a.children@.len() ==> an[i] != an[j]);
    }
    assert(distinct_seq(bn)) by {
        assert(forall|i: int, j: int| 0 <= i < j < b.children@.len() ==> bn[i] != bn[j]);
    }
    lemma_sorted_distinct_same_elements(an, bn);
    assert(a.children@.len() == b.children@.len());
    assert forall|i: int| 0 <= i < a.children@.len() implies iso(
        #[trigger] a.children@[i],
        b.children@[i],
    ) by {
        assert(an[i] == bn[i]);
        assert(a.children@[i].name@ == b.children@[i].name@);
        lemma_child_paths_extract(a, i);
        lemma_child_paths_extract(b, i);
        assert(a.children@[i].descendant_paths() =~= b.children@[i].descendant_paths());
        assert(a.children[i].wf() && b.children[i].wf());
        assert(a.children[i].sorted() && b.children[i].sorted());
        lemma_sorted_shape_determined(a.children@[i], b.children@[i]);
    }
}

/// Membership in the induced tree paths: a path is present exactly
/// when some file under the root contributes it as a prefix of its
/// relative components.
pub proof fn lemma_tree_paths_membership(
    root: Seq<char>,
    files: Seq<Seq<char>>,
    p: Seq<Seq<char>>,
)
    ensures
        tree_paths(root, files).contains(p) <==> exists|k: int|
            0 <= k < files.len() && spec_is_under(root, #[trigger] files[k]) && path_prefixes(
                spec_components(spec_rel_path(root, files[k])),
            ).contains(p),
    decreases files.len(),
{
    if files.len() > 0 {
        lemma_tree_paths_membership(root, files.drop_last(), p);
        assert(files.drop_last().len() == files.len() - 1);
        assert forall|k: int| 0 <= k < files.len() - 1 implies files.drop_last()[k]
            == files[k] by {}
        if tree_paths(root, files).contains(p) {
            if tree_paths(root, files.drop_last()).contains(p) {
                let k = choose|k: int|
                    0 <= k < files.drop_last().len() && spec_is_under(
                        root,
                        #[trigger] files.drop_last()[k],
                    ) && path_prefixes(
                        spec_components(spec_rel_path(root, files.drop_last()[k])),
                    ).contains(p);
                assert(0 <= k < files.len() && spec_is_under(root, files[k]) && path_prefixes(
                    spec_components(spec_rel_path(root, files[k])),
                ).contains(p));
            } else {
                let k = files.len() - 1;
                assert(files.last() == files[k]);
                assert(spec_is_under(root, files[k]) && path_prefixes(
                    spec_components(spec_rel_path(root, files[k])),
                ).contains(p));
            }
        }
        if exists|k: int|
            0 <= k < files.len() && spec_is_under(root, #[trigger] files[k]) && path_prefixes(
                spec_components(spec_rel_path(root, files[k])),
            ).contains(p) {
            let k = choose|k: int|
                0 <= k < files.len() && spec_is_under(root, #[trigger] files[k]) && path_prefixes(
                    spec_components(spec_rel_path(root, files[k])),
                ).contains(p);
            if k < files.len() - 1 {
                assert(files.drop_last()[k] == files[k]);
                assert(tree_paths(root, files.drop_last()).contains(p));
            } else {
                assert(files.last() == files[k]);
            }
            assert(tree_paths(root, files).contains(p));
        }
    }
}

/// The induced tree paths do not depend on the order of the
/// discovered list: lists holding the same paths induce the same set.
pub proof fn lemma_tree_paths_permutation(
    root: Seq<char>,
    files1: Seq<Seq<char>>,
    files2: Seq<Seq<char>>,
)
    requires
        files1.to_multiset() == files2.to_multiset(),
    ensures
        tree_paths(root, files1) =~= tree_paths(root, files2),
{
    files1.to_multiset_ensures();
    files2.to_multiset_ensures();
    assert forall|p: Seq<Seq<char>>| tree_paths(root, files1).contains(p) implies tree_paths(
        root,
        files2,
    ).contains(p) by {
        lemma_tree_paths_membership(root, files1, p);
        lemma_tree_paths_membership(root, files2, p);
        let k = choose|k: int|
            0 <= k < files1.len() && spec_is_under(root, #[trigger] files1[k]) && path_prefixes(
                spec_components(spec_rel_path(root, files1[k])),
            ).contains(p);
        assert(files1.contains(files1[k]));
        assert(files1.to_multiset().count(files1[k]) > 0);
        assert(files2.to_multiset().count(files1[k]) > 0);
        assert(files2.contains(files1[k]));
        let m = choose|m: int| 0 <= m < files2.len() && files2[m] == files1[k];
        assert(0 <= m < files2.len() && spec_is_under(root, files2[m]) && path_prefixes(
            spec_components(spec_rel_path(root, files2[m])),
        ).contains(p));
    }
    assert forall|p: Seq<Seq<char>>| tree_paths(root, files2).contains(p) implies tree_paths(
        root,
        files1,
    ).contains(p) by {
        lemma_tree_paths_membership(root, files1, p);
        lemma_tree_paths_membership(root, files2, p);
        let k = choose|k: int|
            0 <= k < files2.len() && spec_is_under(root, #[trigger] files2[k]) && path_prefixes(
                spec_components(spec_rel_path(root, files2[k])),
            ).contains(p);
        assert(files2.contains(files2[k]));
        assert(files2.to_multiset().count(files2[k]) > 0);
        assert(files1.to_multiset().count(files2[k]) > 0);
        assert(files1.contains(files2[k]));
        let m = choose|m: int| 0 <= m < files1.len() && files1[m] == files2[k];
        assert(0 <= m < files1.len() && spec_is_under(root, files1[m]) && path_prefixes(
            spec_components(spec_rel_path(root, files1[m])),
        ).contains(p));
    }
}

/// Law: tree construction is order-insensitive for the final
/// structure.  Feeding the same file set in any order and then
/// applying the sort pass yields isomorphic trees.
pub proof fn lemma_tree_order_insensitive(
    root: Seq<char>,
    files1: Seq<Seq<char>>,
    files2: Seq<Seq<char>>,
    a: TreeNode,
    b: TreeNode,
)
    requires
        files1.to_multiset() == files2.to_multiset(),
        a.wf(),
        b.wf(),
        a.sorted(),
        b.sorted(),
        a.name@ == b.name@,
        a.descendant_paths() == tree_paths(root, files1),
        b.descendant_paths() == tree_paths(root, files2),
    ensures
        iso(a, b),
{
    lemma_tree_paths_permutation(root, files1, files2);
    lemma_sorted_shape_determined(a, b);
}


/// The name paths from this node down to each childless descendant.
pub open spec fn leaf_paths(t: TreeNode) -> Set<Seq<Seq<char>>>
    decreases t,
{
    Set::new(
        |p: Seq<Seq<char>>|
            p.len() >= 1 && exists|i: int|
                0 <= i < t.children.len() && (#[trigger] t.children[i]).name@ == p[0] && (if p.len()
                    == 1 {
                    t.children[i].children.len() == 0
                } else {
                    leaf_paths(t.children[i]).contains(p.skip(1))
                }),
    )
}

/// Whether `a` is a proper prefix of `b`.
pub open spec fn proper_prefix(a: Seq<Seq<char>>, b: Seq<Seq<char>>) -> bool {
    a.len() < b.len() && b.take(a.len() as int) == a
}

/// In a well-formed tree the leaf paths are exactly the maximal
/// descendant paths: those that no longer descendant path extends.
pub proof fn lemma_leaf_paths_are_maximal(t: TreeNode, p: Seq<Seq<char>>)
    requires
        t.wf(),
    ensures
        leaf_paths(t).contains(p) <==> (t.descendant_paths().contains(p) && !exists|
            q: Seq<Seq<char>>,
        |
            #[trigger] t.descendant_paths().contains(q) && proper_prefix(p, q)),
    decreases t,
{
    if leaf_paths(t).contains(p) {
        let i = choose|i: int|
            0 <= i < t.children.len() && (#[trigger] t.children[i]).name@ == p[0] && (if p.len()
                == 1 {
                t.children[i].children.len() == 0
            } else {
                leaf_paths(t.children[i]).contains(p.skip(1))
            });
        let c = t.children@[i];
        assert(c.wf());
        lemma_leaf_paths_are_maximal(c, p.skip(1));
        if p.len() == 1 {
            assert(t.descendant_paths().contains(p));
        } else {
            assert(c.descendant_paths().contains(p.skip(1)));
            assert(t.descendant_paths().contains(p));
        }
        assert forall|q: Seq<Seq<char>>| #[trigger] t.descendant_paths().contains(q) implies
            !proper_prefix(p, q) by {
            if proper_prefix(p, q) {
                let j = choose|j: int|
                    0 <= j < t.children.len() && (#[trigger] t.children[j]).name@ == q[0] && (q.len()
                        == 1 || t.children[j].descendant_paths().contains(q.skip(1)));
                assert(q[0] == q.take(p.len() as int)[0]);
                assert(q[0] == p[0]);
                if j != i {
                    assert(names_of(t.children@)[j] == t.children@[j].name@);
                    assert(names_of(t.children@)[i] == t.children@[i].name@);
                    assert(false);
                }
                assert(q.len() >= 2);
                assert(c.descendant_paths().contains(q.skip(1)));
                if p.len() == 1 {
                    assert(c.descendant_paths() =~= Set::<Seq<Seq<char>>>::empty());
                    assert(false);
                } else {
                    lemma_leaf_paths_are_maximal(c, p.skip(1));
                    assert(q.skip(1).take(p.len() - 1) =~= q.take(p.len() as int).skip(1));
                    assert(q.take(p.len() as int).skip(1) =~= p.skip(1));
                    assert(proper_prefix(p.skip(1), q.skip(1)));
                    assert(false);
                }
            }
        }
    }
    if t.descendant_paths().contains(p) && !(exists|q: Seq<Seq<char>>|
        #[trigger] t.descendant_paths().contains(q) && proper_prefix(p, q)) {
        let i = choose|i: int|
            0 <= i < t.children.len() && (#[trigger] t.children[i]).name@ == p[0] && (p.len() == 1
                || t.children[i].descendant_paths().contains(p.skip(1)));
        let c = t.children@[i];
        assert(c.wf());
        if p.len() == 1 {
            if c.children@.len() > 0 {
                let q = p + seq![c.children@[0].name@];
                lemma_singleton_path_is_child_name(c, c.children@[0].name@);
                assert(names_of(c.children@)[0] == c.children@[0].name@);
                assert(names_of(c.children@).contains(c.children@[0].name@));
                assert(c.descendant_paths().contains(seq![c.children@[0].name@]));
                assert(q[0] == p[0]);
                assert(q.skip(1) =~= seq![c.children@[0].name@]);
                assert(t.descendant_paths().contains(q));
                assert(q.take(1) =~= p);
                assert(proper_prefix(p, q));
                assert(false);
            }
            assert(leaf_paths(t).contains(p));
        } else {
            assert(c.descendant_paths().contains(p.skip(1)));
            assert forall|q2: Seq<Seq<char>>| #[trigger] c.descendant_paths().contains(q2) implies
                !proper_prefix(p.skip(1), q2) by {
                if proper_prefix(p.skip(1), q2) {
                    let q = seq![p[0]] + q2;
                    assert(q[0] == p[0]);
                    assert(q.skip(1) =~= q2);
                    assert(q.len() >= 2);
                    assert(t.descendant_paths().contains(q));
                    assert forall|m: int| 0 <= m < p.len() implies q.take(p.len() as int)[m]
                        == p[m] by {
                        if m > 0 {
                            assert(q.take(p.len() as int)[m] == q2[m - 1]);
                            assert(q2.take(p.skip(1).len() as int)[m - 1] == p.skip(1)[m - 1]);
                            assert(q2[m - 1] == p[m]);
                        }
                    }
                    assert(q.take(p.len() as int) =~= p);
                    assert(proper_prefix(p, q));
                    assert(false);
                }
            }
            lemma_leaf_paths_are_maximal(c, p.skip(1));
            assert(leaf_paths(c).contains(p.skip(1)));
            assert(leaf_paths(t).contains(p));
        }
    }
}

/// Law (round trip): build the tree of a discovered list whose files
/// all lie strictly under the root and whose relative component
/// paths are prefix-free; then the tree's leaf paths are exactly
/// those component paths — each discovered file reaches one leaf,
/// and each leaf is reached by one discovered file.
pub proof fn lemma_round_trip(root: Seq<char>, files: Seq<Seq<char>>, t: TreeNode)
    requires
        t.wf(),
        t.descendant_paths() == tree_paths(root, files),
        forall|k: int| 0 <= k < files.len() ==> spec_is_under(root, #[trigger] files[k]),
        forall|k: int|
            0 <= k < files.len() ==> spec_components(spec_rel_path(root, #[trigger] files[k])).len()
                >= 1,
        forall|k: int, l: int|
            0 <= k < files.len() && 0 <= l < files.len() ==> !proper_prefix(
                spec_components(spec_rel_path(root, #[trigger] files[k])),
                spec_components(spec_rel_path(root, #[trigger] files[l])),
            ),
    ensures
        forall|p: Seq<Seq<char>>|
            #[trigger] leaf_paths(t).contains(p) <==> exists|k: int|
                0 <= k < files.len() && p == spec_components(
                    spec_rel_path(root, #[trigger] files[k]),
                ),
{
    assert forall|p: Seq<Seq<char>>| #[trigger] leaf_paths(t).contains(p) implies exists|k: int|
        0 <= k < files.len() && p == spec_components(
            spec_rel_path(root, #[trigger] files[k]),
        ) by {
        lemma_leaf_paths_are_maximal(t, p);
        lemma_tree_paths_membership(root, files, p);
        let k = choose|k: int|
            0 <= k < files.len() && spec_is_under(root, #[trigger] files[k]) && path_prefixes(
                spec_components(spec_rel_path(root, files[k])),
            ).contains(p);
        let cs = spec_components(spec_rel_path(root, files[k]));
        assert(p == cs.take(p.len() as int));
        if p.len() < cs.len() {
            assert(cs.take(cs.len() as int) =~= cs);
            assert(path_prefixes(cs).contains(cs));
            lemma_tree_paths_membership(root, files, cs);
            assert(0 <= k < files.len() && spec_is_under(root, files[k]) && path_prefixes(
                spec_components(spec_rel_path(root, files[k])),
            ).contains(cs));
            assert(t.descendant_paths().contains(cs));
            assert(proper_prefix(p, cs));
            assert(false);
        }
        assert(p =~= cs);
    }
    assert forall|p: Seq<Seq<char>>|
        (exists|k: int|
            0 <= k < files.len() && p == spec_components(
                spec_rel_path(root, #[trigger] files[k]),
            )) implies #[trigger] leaf_paths(t).contains(p) by {
        let k = choose|k: int|
            0 <= k < files.len() && p == spec_components(spec_rel_path(root, #[trigger] files[k]));
        let cs = spec_components(spec_rel_path(root, files[k]));
        assert(cs.take(cs.len() as int) =~= cs);
        assert(path_prefixes(cs).contains(cs));
        lemma_tree_paths_membership(root, files, cs);
        assert(0 <= k < files.len() && spec_is_under(root, files[k]) && path_prefixes(
            spec_components(spec_rel_path(root, files[k])),
        ).contains(cs));
        assert(t.descendant_paths().contains(cs));
        assert forall|q: Seq<Seq<char>>| #[trigger] t.descendant_paths().contains(q) implies
            !proper_prefix(cs, q) by {
            if proper_prefix(cs, q) {
                lemma_tree_paths_membership(root, files, q);
                let l = choose|l: int|
                    0 <= l < files.len() && spec_is_under(root, #[trigger] files[l])
                        && path_prefixes(
                        spec_components(spec_rel_path(root, files[l])),
                    ).contains(q);
                let ds = spec_components(spec_rel_path(root, files[l]));
                assert(q == ds.take(q.len() as int));
                assert(cs == q.take(cs.len() as int));
                assert(ds.take(q.len() as int).take(cs.len() as int) =~= ds.take(cs.len() as int));
                assert(proper_prefix(cs, ds));
                assert(false);
            }
        }
        lemma_leaf_paths_are_maximal(t, cs);
        assert(leaf_paths(t).contains(cs));
    }
}


/// The index of the first node in `cs`, from position `j` on, whose
/// name is `name`.
pub open spec fn spec_find(cs: Seq<TreeNode>, name: Seq<char>, j: int) -> Option<int>
    decreases cs.len() - j,
{
    if j < 0 || j >= cs.len() {
        Option::None
    } else if cs[j].name@ == name {
        Option::Some(j)
    } else {
        spec_find(cs, name, j + 1)
    }
}

/// A search that found no match up to `j` answers as the search
/// from `j` does.
proof fn lemma_spec_find_skip(cs: Seq<TreeNode>, name: Seq<char>, j: int)
    requires
        0 <= j <= cs.len(),
        forall|k: int| 0 <= k < j ==> (#[trigger] cs[k]).name@ != name,
    ensures
        spec_find(cs, name, 0) == spec_find(cs, name, j),
    decreases j,
{
    if j > 0 {
        lemma_spec_find_skip(cs, name, j - 1);
    }
}

/// What a search outcome means, position by position.
proof fn lemma_spec_find_char(cs: Seq<TreeNode>, name: Seq<char>, j: int)
    requires
        0 <= j <= cs.len(),
    ensures
        match spec_find(cs, name, j) {
            Option::Some(i) => j <= i < cs.len() && cs[i].name@ == name && forall|k: int|
                j <= k < i ==> (#[trigger] cs[k]).name@ != name,
            Option::None => forall|k: int| j <= k < cs.len() ==> (#[trigger] cs[k]).name@ != name,
        },
    decreases cs.len() - j,
{
    if j < cs.len() && cs[j].name@ != name {
        lemma_spec_find_char(cs, name, j + 1);
    }
}

/// A node that is exactly the linear chain spelling `comps`.
pub open spec fn chain_of(c: TreeNode, comps: Seq<Seq<char>>) -> bool
    decreases comps.len(),
{
    comps.len() >= 1 && c.name@ == comps[0] && (if comps.len() == 1 {
        c.children@.len() == 0
    } else {
        c.children@.len() == 1 && chain_of(c.children@[0], comps.skip(1))
    })
}

/// How one insertion rewrites a node: an empty path changes nothing;
/// otherwise the head component's child — the first existing one
/// with that name, else a fresh chain appended after all existing
/// children — absorbs the tail, and every other child keeps its
/// place and shape.
pub open spec fn inserted(t1: TreeNode, comps: Seq<Seq<char>>, t2: TreeNode) -> bool
    decreases comps.len(),
{
    if comps.len() == 0 {
        iso(t2, t1)
    } else {
        t2.name@ == t1.name@ && match spec_find(t1.children@, comps[0], 0) {
            Option::Some(i) => {
                &&& t2.children@.len() == t1.children@.len()
                &&& forall|k: int|
                    0 <= k < t1.children@.len() && k != i ==> iso(
                        #[trigger] t2.children@[k],
                        t1.children@[k],
                    )
                &&& inserted(t1.children@[i], comps.skip(1), t2.children@[i])
            },
            Option::None => {
                &&& t2.children@.len() == t1.children@.len() + 1
                &&& forall|k: int|
                    0 <= k < t1.children@.len() ==> iso(
                        #[trigger] t2.children@[k],
                        t1.children@[k],
                    )
                &&& chain_of(t2.children@.last(), comps)
            },
        }
    }
}

/// Every tree has its own shape.
pub proof fn lemma_iso_refl(t: TreeNode)
    ensures
        iso(t, t),
    decreases t,
{
    assert forall|i: int| 0 <= i < t.children@.len() implies iso(
        #[trigger] t.children@[i],
        t.children@[i],
    ) by {
        lemma_iso_refl(t.children@[i]);
    }
}

/// An insertion keeps the node's name.
proof fn lemma_inserted_name(t1: TreeNode, comps: Seq<Seq<char>>, t2: TreeNode)
    requires
        inserted(t1, comps, t2),
    ensures
        t2.name@ == t1.name@,
{
    if comps.len() == 0 {
        assert(iso(t2, t1));
    }
}

/// Inserting a tail into a fresh leaf grows the chain of the whole
/// component path.
proof fn lemma_inserted_chain(leaf: TreeNode, rest: Seq<Seq<char>>, c: TreeNode, head: Seq<char>)
    requires
        leaf.children@.len() == 0,
        leaf.name@ == head,
        inserted(leaf, rest, c),
    ensures
        chain_of(c, seq![head] + rest),
{
    let comps = seq![head] + rest;
    assert(comps[0] == head);
    assert(comps.skip(1) =~= rest);
    if rest.len() == 0 {
        assert(iso(c, leaf));
        assert(chain_of(c, comps));
    } else {
        assert(spec_find(leaf.children@, rest[0], 0) is None);
        assert(c.children@.len() == 1);
        assert(chain_of(c.children@.last(), rest));
        assert(c.children@.last() == c.children@[0]);
        assert(c.name@ == leaf.name@);
        assert(chain_of(c, comps));
    }
}

/// Re-inserting a path down an existing chain of it changes nothing.
proof fn lemma_insert_into_chain(c: TreeNode, comps: Seq<Seq<char>>, c2: TreeNode)
    requires
        chain_of(c, comps),
        inserted(c, comps.skip(1), c2),
    ensures
        iso(c2, c),
    decreases comps.len(),
{
    let rest = comps.skip(1);
    if rest.len() == 0 {
        assert(iso(c2, c));
    } else {
        assert(c.children@.len() == 1);
        let cp = c.children@[0];
        assert(chain_of(cp, rest));
        assert(cp.name@ == rest[0]);
        assert(spec_find(c.children@, rest[0], 0) == Option::Some(0int));
        assert(rest.skip(1) =~= comps.skip(1).skip(1));
        assert(inserted(cp, rest.skip(1), c2.children@[0]));
        lemma_insert_into_chain(cp, rest, c2.children@[0]);
        assert forall|k: int| 0 <= k < c.children@.len() implies iso(
            #[trigger] c2.children@[k],
            c.children@[k],
        ) by {
            assert(k == 0);
        }
        assert(c2.name@ == c.name@);
        assert(iso(c2, c));
    }
}

/// Law: insertion is idempotent.  Inserting the same component path
/// twice leaves the tree of the first insertion, shape for shape.
pub proof fn lemma_insert_idempotent(
    t1: TreeNode,
    comps: Seq<Seq<char>>,
    t2: TreeNode,
    t3: TreeNode,
)
    requires
        inserted(t1, comps, t2),
        inserted(t2, comps, t3),
    ensures
        iso(t3, t2),
    decreases comps.len(),
{
    if comps.len() == 0 {
        assert(iso(t3, t2));
    } else {
        let head = comps[0];
        lemma_spec_find_char(t1.children@, head, 0);
        match spec_find(t1.children@, head, 0) {
            Option::Some(i) => {
                assert forall|k: int| 0 <= k < i implies (#[trigger] t2.children@[k]).name@
                    != head by {
                    assert(iso(t2.children@[k], t1.children@[k]));
                    assert(t1.children@[k].name@ != head);
                }
                lemma_inserted_name(t1.children@[i], comps.skip(1), t2.children@[i]);
                assert(t2.children@[i].name@ == head);
                lemma_spec_find_skip(t2.children@, head, i);
                assert(spec_find(t2.children@, head, i) == Option::Some(i));
                assert(spec_find(t2.children@, head, 0) == Option::Some(i));
                assert forall|k: int| 0 <= k < t2.children@.len() implies iso(
                    #[trigger] t3.children@[k],
                    t2.children@[k],
                ) by {
                    if k == i {
                        lemma_insert_idempotent(
                            t1.children@[i],
                            comps.skip(1),
                            t2.children@[i],
                            t3.children@[i],
                        );
                    }
                }
                assert(iso(t3, t2));
            },
            Option::None => {
                let n = t1.children@.len() as int;
                assert(chain_of(t2.children@.last(), comps));
                assert(t2.children@[n].name@ == head);
                assert forall|k: int| 0 <= k < n implies (#[trigger] t2.children@[k]).name@
                    != head by {
                    assert(iso(t2.children@[k], t1.children@[k]));
                    assert(t1.children@[k].name@ != head);
                }
                lemma_spec_find_skip(t2.children@, head, n);
                assert(spec_find(t2.children@, head, n) == Option::Some(n));
                assert(spec_find(t2.children@, head, 0) == Option::Some(n));
                assert forall|k: int| 0 <= k < t2.children@.len() implies iso(
                    #[trigger] t3.children@[k],
                    t2.children@[k],
                ) by {
                    if k == n {
                        lemma_insert_into_chain(t2.children@[n], comps, t3.children@[n]);
                    }
                }
                assert(iso(t3, t2));
            },
        }
    }
}

} // verus!
