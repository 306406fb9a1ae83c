//! A tree of recipes mirroring the directory hierarchy: directory nodes
//! carry children, leaf nodes carry a recipe entry.

use vstd::prelude::*;
use crate::entry::{RecipeEntry, RecipeEntryError, name_of_entry};
use crate::paths::{
    file_name_of, file_name, strip_prefix, strip_prefix_of, join_path, split_components,
};
use crate::text::str_eq;

verus! {

/// One node: a directory, or a recipe leaf.
#[derive(Debug)]
pub struct RecipeTree {
    /// Name of the node: a directory name or a recipe's resolved name.
    pub name: String,
    /// Full path of the node.
    pub path: String,
    /// The recipe, at a leaf.
    pub recipe: Option<RecipeEntry>,
    /// Children by name, a name held once.
    pub children: Vec<(String, RecipeTree)>,
}

/// What can go wrong while building the tree.
#[derive(Debug, Clone)]
pub enum TreeError {
    /// The root directory does not exist.
    DirectoryNotFound(String),
    /// The root path is not a directory.
    NotADirectory(String),
    /// A directory could not be read.
    GlobError(String),
    /// A search pattern could not be built.
    PatternError(String),
    /// A document could not be loaded.
    RecipeEntryError(RecipeEntryError),
    /// A recipe path does not lie under the root.
    StripPrefixError(String),
}

/// Every level of the tree holds each child name once.
pub open spec fn tree_wf(t: RecipeTree) -> bool
    decreases t,
{
    (forall|i: int, j: int|
        0 <= i < j < t.children@.len() ==> (#[trigger] t.children@[i]).0@ != (
        #[trigger] t.children@[j]).0@) && (forall|i: int|
        0 <= i < t.children@.len() ==> tree_wf((#[trigger] t.children@[i]).1))
}

impl RecipeTree {
    /// A directory node with no children yet.
    pub fn new(name: String, path: String) -> (r: RecipeTree)
        ensures
            r.name@ == name@,
            r.path@ == path@,
            r.recipe is None,
            r.children@.len() == 0,
            tree_wf(r),
    {
        RecipeTree { name, path, recipe: None, children: Vec::new() }
    }

    /// A leaf node holding a recipe.
    pub fn new_with_recipe(name: String, path: String, recipe: RecipeEntry) -> (r: RecipeTree)
        ensures
            r.name@ == name@,
            r.path@ == path@,
            r.recipe == Some(recipe),
            r.children@.len() == 0,
            tree_wf(r),
    {
        RecipeTree { name, path, recipe: Some(recipe), children: Vec::new() }
    }

    /// The position of the first child named `name`, if one is there.
    fn find_child(&self, name: &str) -> (r: Option<usize>)
        ensures
            match r {
                Some(i) => i < self.children@.len() && self.children@[i as int].0@ == name@
                    && forall|j: int|
                    0 <= j < i ==> (#[trigger] self.children@[j].0)@ != name@,
                None => forall|j: int|
                    0 <= j < self.children@.len() ==> (#[trigger] self.children@[j].0)@
                        != name@,
            },
    {
        let mut i: usize = 0;
        while i < self.children.len()
            invariant
                i <= self.children@.len(),
                forall|j: int|
                    0 <= j < i ==> (#[trigger] self.children@[j].0)@ != name@,
            decreases self.children@.len() - i,
        {
            if str_eq(self.children[i].0.as_str(), name) {
                return Some(i);
            }
            i = i + 1;
        }
        None
    }

    /// The child named `name`, if one is there.
    pub fn get_child(&self, name: &str) -> (r: Option<&RecipeTree>)
        ensures
            match r {
                Some(c) => exists|i: int|
                    0 <= i < self.children@.len() && #[trigger] self.children@[i]
                        == (self.children@[i].0, *c) && self.children@[i].0@ == name@,
                None => forall|j: int|
                    0 <= j < self.children@.len() ==> (#[trigger] self.children@[j].0)@
                        != name@,
            },
    {
        match self.find_child(name) {
            Some(i) => {
                proof {
                    assert(self.children@[i as int] == (
                        self.children@[i as int].0,
                        self.children@[i as int].1,
                    ));
                }
                Some(&self.children[i].1)
            },
            None => None,
        }
    }

    /// The recipe reached by descending through the named children.
    pub fn get_recipe_at_path(&self, path: &Vec<String>) -> (r: Option<&RecipeEntry>)
        ensures
            match r {
                Some(e) => descend(*self, path.deep_view(), 0) == Some(*e),
                None => descend(*self, path.deep_view(), 0) is None,
            },
    {
        let ghost comps = path.deep_view();
        let mut cur: &RecipeTree = self;
        let mut i: usize = 0;
        while i < path.len()
            invariant
                i <= path.len(),
                comps == path.deep_view(),
                comps.len() == path.len(),
                descend(*self, comps, 0) == descend(*cur, comps, i as int),
            decreases path.len() - i,
        {
            proof {
                assert(comps[i as int] == path@[i as int]@);
            }
            match cur.find_child(path[i].as_str()) {
                Some(k) => {
                    proof {
                        lemma_child_at_found(cur.children@, comps[i as int], k as int);
                    }
                    cur = &cur.children[k].1;
                },
                None => {
                    proof {
                        lemma_child_at_absent(cur.children@, comps[i as int]);
                    }
                    return None;
                },
            }
            i = i + 1;
        }
        match &cur.recipe {
            Some(r) => Some(r),
            None => None,
        }
    }
}

/// The first child with the given name, if any.
pub open spec fn child_at(s: Seq<(String, RecipeTree)>, name: Seq<char>) -> Option<
    RecipeTree,
>
    decreases s.len(),
{
    if s.len() == 0 {
        None
    } else if s[0].0@ == name {
        Some(s[0].1)
    } else {
        child_at(s.subrange(1, s.len() as int), name)
    }
}

/// The recipe reached from `t` by following the component names from
/// `i` on.
pub open spec fn descend(t: RecipeTree, comps: Seq<Seq<char>>, i: int) -> Option<RecipeEntry>
    decreases comps.len() - i,
{
    if i < 0 || i >= comps.len() {
        t.recipe
    } else {
        match child_at(t.children@, comps[i]) {
            Some(c) => descend(c, comps, i + 1),
            None => None,
        }
    }
}

/// The node reached from `t` by following the component names from `i`
/// on.
pub open spec fn node_at(t: RecipeTree, comps: Seq<Seq<char>>, i: int) -> Option<RecipeTree>
    decreases comps.len() - i,
{
    if i < 0 || i >= comps.len() {
        Some(t)
    } else {
        match child_at(t.children@, comps[i]) {
            Some(c) => node_at(c, comps, i + 1),
            None => None,
        }
    }
}

/// `q` is an initial piece of `t`.
pub open spec fn is_prefix(q: Seq<Seq<char>>, t: Seq<Seq<char>>) -> bool {
    q.len() <= t.len() && forall|d: int| 0 <= d < q.len() ==> q[d] == t[d]
}

/// Reaching a node from position `i` equals reaching it by the remaining
/// components from the start.
proof fn lemma_node_at_shift(t: RecipeTree, q: Seq<Seq<char>>, i: int)
    requires
        0 <= i <= q.len(),
    ensures
        node_at(t, q, i) == node_at(t, q.subrange(i, q.len() as int), 0),
    decreases q.len() - i,
{
    let sub = q.subrange(i, q.len() as int);
    if i < q.len() {
        assert(sub[0] == q[i]);
        match child_at(t.children@, q[i]) {
            Some(c) => {
                lemma_node_at_shift(c, q, i + 1);
                lemma_node_at_shift(c, sub, 1);
                assert(sub.subrange(1, sub.len() as int) =~= q.subrange(
                    i + 1,
                    q.len() as int,
                ));
            },
            None => {},
        }
    }
}

/// Extending the path by one name descends into that child of the node
/// reached.
proof fn lemma_node_at_snoc(t: RecipeTree, q: Seq<Seq<char>>, x: Seq<char>)
    ensures
        node_at(t, q.push(x), 0) == (match node_at(t, q, 0) {
            Some(n) => child_at(n.children@, x),
            None => None,
        }),
    decreases q.len(),
{
    let qx = q.push(x);
    if q.len() == 0 {
        assert(qx[0] == x);
        match child_at(t.children@, x) {
            Some(c) => {
                assert(node_at(t, qx, 0) == node_at(c, qx, 1));
                assert(node_at(c, qx, 1) == Some(c));
            },
            None => {},
        }
    } else {
        assert(qx[0] == q[0]);
        match child_at(t.children@, q[0]) {
            Some(c) => {
                let qsub = q.subrange(1, q.len() as int);
                lemma_node_at_shift(c, q, 1);
                lemma_node_at_shift(c, qx, 1);
                assert(qx.subrange(1, qx.len() as int) =~= qsub.push(x));
                lemma_node_at_snoc(c, qsub, x);
            },
            None => {},
        }
    }
}

/// In a built tree whose entries' lookup paths pairwise diverge, a node
/// that holds a recipe is a leaf: nothing hangs below it.
pub proof fn lemma_recipes_at_leaves(
    t: RecipeTree,
    base: Seq<char>,
    entries: Seq<(String, RecipeEntry)>,
)
    requires
        forall|q: Seq<Seq<char>>|
            q.len() > 0 && #[trigger] node_at(t, q, 0) is Some ==> exists|k: int|
                0 <= k < entries.len() && is_prefix(
                    q,
                    #[trigger] entry_target(base, entries[k].0@, entries[k].1),
                ),
        forall|q: Seq<Seq<char>>|
            (#[trigger] node_at(t, q, 0) is Some && node_at(t, q, 0)->0.recipe is Some)
                ==> exists|k: int|
                0 <= k < entries.len() && q == #[trigger] entry_target(
                    base,
                    entries[k].0@,
                    entries[k].1,
                ),
        forall|i: int, j: int|
            #![trigger entry_target(base, entries[i].0@, entries[i].1), entry_target(base, entries[j].0@, entries[j].1)]
            0 <= i < entries.len() && 0 <= j < entries.len() && i != j ==> diverges(
                entry_target(base, entries[i].0@, entries[i].1),
                entry_target(base, entries[j].0@, entries[j].1),
            ),
    ensures
        forall|q: Seq<Seq<char>>|
            (q.len() > 0 && #[trigger] node_at(t, q, 0) is Some && node_at(
                t,
                q,
                0,
            )->0.recipe is Some) ==> node_at(t, q, 0)->0.children@.len() == 0,
{
    assert forall|q: Seq<Seq<char>>|
        (q.len() > 0 && #[trigger] node_at(t, q, 0) is Some && node_at(t, q, 0)->0.recipe
            is Some) implies node_at(t, q, 0)->0.children@.len() == 0 by {
        let n = node_at(t, q, 0)->0;
        if n.children@.len() > 0 {
            let x = n.children@[0].0@;
            assert(child_at(n.children@, x) is Some);
            lemma_node_at_snoc(t, q, x);
            assert(node_at(t, q.push(x), 0) is Some);
            assert(q.push(x).len() > 0);
            let k1 = choose|k: int|
                0 <= k < entries.len() && is_prefix(
                    q.push(x),
                    #[trigger] entry_target(base, entries[k].0@, entries[k].1),
                );
            let k2 = choose|k: int|
                0 <= k < entries.len() && q == #[trigger] entry_target(
                    base,
                    entries[k].0@,
                    entries[k].1,
                );
            let t1 = entry_target(base, entries[k1].0@, entries[k1].1);
            let t2 = entry_target(base, entries[k2].0@, entries[k2].1);
            assert(is_prefix(q.push(x), t1));
            assert(q == t2);
            assert(t1.len() >= q.len() + 1);
            assert forall|d: int| 0 <= d < q.len() implies t2[d] == t1[d] by {
                assert(q.push(x)[d] == q[d]);
            }
            if k1 == k2 {
                assert(false);
            } else {
                assert(diverges(t2, t1) || diverges(t1, t2));
                if diverges(t2, t1) {
                    let d = choose|d: int|
                        0 <= d < t2.len() && d < t1.len() && #[trigger] t2[d] != t1[d];
                    assert(false);
                } else {
                    let d = choose|d: int|
                        0 <= d < t1.len() && d < t2.len() && #[trigger] t1[d] != t2[d];
                    assert(false);
                }
            }
        }
    }
}

/// `q` leaves the `target` path at some depth where both still have a
/// component.
pub open spec fn diverges(q: Seq<Seq<char>>, target: Seq<Seq<char>>) -> bool {
    exists|d: int| 0 <= d < q.len() && d < target.len() && #[trigger] q[d] != target[d]
}

/// Descending from position `i` equals descending the remaining
/// components from the start.
proof fn lemma_descend_shift(t: RecipeTree, q: Seq<Seq<char>>, i: int)
    requires
        0 <= i <= q.len(),
    ensures
        descend(t, q, i) == descend(t, q.subrange(i, q.len() as int), 0),
    decreases q.len() - i,
{
    let sub = q.subrange(i, q.len() as int);
    if i < q.len() {
        assert(sub[0] == q[i]);
        match child_at(t.children@, q[i]) {
            Some(c) => {
                lemma_descend_shift(c, q, i + 1);
                lemma_descend_shift(c, sub, 1);
                assert(sub.subrange(1, sub.len() as int) =~= q.subrange(
                    i + 1,
                    q.len() as int,
                ));
            },
            None => {},
        }
    }
}

/// Removing an entry of one name keeps lookups of every other name.
proof fn lemma_child_at_remove_other(
    s: Seq<(String, RecipeTree)>,
    i: int,
    m: Seq<char>,
)
    requires
        0 <= i < s.len(),
        s[i].0@ != m,
    ensures
        child_at(s.remove(i), m) == child_at(s, m),
    decreases s.len(),
{
    let r = s.remove(i);
    if s.len() > 0 {
        if i == 0 {
            assert(r =~= s.subrange(1, s.len() as int));
        } else if s[0].0@ == m {
            assert(r[0] == s[0]);
        } else {
            assert(r[0] == s[0]);
            assert(r.subrange(1, r.len() as int) =~= s.subrange(1, s.len() as int).remove(
                i - 1,
            ));
            lemma_child_at_remove_other(s.subrange(1, s.len() as int), i - 1, m);
        }
    }
}

/// Appending an entry of one name keeps lookups of every other name.
proof fn lemma_child_at_push_other(
    s: Seq<(String, RecipeTree)>,
    p: (String, RecipeTree),
    m: Seq<char>,
)
    requires
        p.0@ != m,
    ensures
        child_at(s.push(p), m) == child_at(s, m),
    decreases s.len(),
{
    let r = s.push(p);
    if s.len() == 0 {
        assert(r[0] == p);
        assert(r.subrange(1, r.len() as int) =~= Seq::<(String, RecipeTree)>::empty());
        assert(child_at(r.subrange(1, r.len() as int), m) is None);
    } else {
        assert(r[0] == s[0]);
        if s[0].0@ != m {
            assert(r.subrange(1, r.len() as int) =~= s.subrange(1, s.len() as int).push(p));
            lemma_child_at_push_other(s.subrange(1, s.len() as int), p, m);
            assert(child_at(r, m) == child_at(r.subrange(1, r.len() as int), m));
            assert(child_at(s, m) == child_at(s.subrange(1, s.len() as int), m));
        }
    }
}

/// Appending an entry of a name not yet present makes lookups of that
/// name yield it.
proof fn lemma_child_at_push_self(s: Seq<(String, RecipeTree)>, p: (String, RecipeTree))
    requires
        forall|k: int| 0 <= k < s.len() ==> (#[trigger] s[k]).0@ != p.0@,
    ensures
        child_at(s.push(p), p.0@) == Some(p.1),
    decreases s.len(),
{
    let r = s.push(p);
    if s.len() == 0 {
        assert(r[0] == p);
    } else {
        assert(r[0] == s[0]);
        assert(s[0].0@ != p.0@);
        assert(r.subrange(1, r.len() as int) =~= s.subrange(1, s.len() as int).push(p));
        assert(forall|k: int|
            0 <= k < s.len() - 1 ==> (#[trigger] s.subrange(1, s.len() as int)[k]) == s[k
                + 1]);
        lemma_child_at_push_self(s.subrange(1, s.len() as int), p);
    }
}

proof fn lemma_child_at_found(s: Seq<(String, RecipeTree)>, name: Seq<char>, k: int)
    requires
        0 <= k < s.len(),
        s[k].0@ == name,
        forall|j: int| 0 <= j < k ==> (#[trigger] s[j].0)@ != name,
    ensures
        child_at(s, name) == Some(s[k].1),
    decreases k,
{
    if k > 0 {
        let sub = s.subrange(1, s.len() as int);
        assert(forall|j: int| 0 <= j < k - 1 ==> sub[j] == s[j + 1]);
        lemma_child_at_found(sub, name, k - 1);
    }
}

proof fn lemma_child_at_absent(s: Seq<(String, RecipeTree)>, name: Seq<char>)
    requires
        forall|j: int| 0 <= j < s.len() ==> (#[trigger] s[j].0)@ != name,
    ensures
        child_at(s, name) is None,
    decreases s.len(),
{
    if s.len() > 0 {
        let sub = s.subrange(1, s.len() as int);
        assert(forall|j: int| 0 <= j < sub.len() ==> sub[j] == s[j + 1]);
        lemma_child_at_absent(sub, name);
    }
}

/// The path under which an insert files its leaf: the remaining
/// directory components, then the leaf's name.
pub open spec fn insert_target(comps: Seq<Seq<char>>, ci: int, leaf: Seq<char>) -> Seq<
    Seq<char>,
> {
    comps.subrange(ci, comps.len() as int).push(leaf)
}

/// Inserts a leaf under the node, walking the directory components from
/// `ci` on and creating any missing directory node.  A component or leaf
/// name already present is taken over (the new leaf replaces an old one
/// of the same name).  The node's own name, path and recipe stay; the
/// leaf becomes retrievable under its path, and every path that diverges
/// from it looks up as before.
fn insert_at(
    node: &mut RecipeTree,
    comps: &Vec<String>,
    ci: usize,
    leaf_name: String,
    leaf_path: String,
    entry: RecipeEntry,
)
    requires
        ci <= comps.len(),
        tree_wf(*old(node)),
    ensures
        final(node).name == old(node).name,
        final(node).path == old(node).path,
        final(node).recipe == old(node).recipe,
        tree_wf(*final(node)),
        descend(
            *final(node),
            insert_target(comps.deep_view(), ci as int, leaf_name@),
            0,
        ) == Some(entry),
        forall|q: Seq<Seq<char>>|
            diverges(q, insert_target(comps.deep_view(), ci as int, leaf_name@))
                ==> #[trigger] descend(*final(node), q, 0) == descend(*old(node), q, 0),
        forall|q: Seq<Seq<char>>|
            #[trigger] node_at(*final(node), q, 0) is Some ==> node_at(*old(node), q, 0)
                is Some || is_prefix(
                q,
                insert_target(comps.deep_view(), ci as int, leaf_name@),
            ),
        forall|q: Seq<Seq<char>>|
            (#[trigger] node_at(*final(node), q, 0) is Some && node_at(
                *final(node),
                q,
                0,
            )->0.recipe is Some) ==> (q == insert_target(
                comps.deep_view(),
                ci as int,
                leaf_name@,
            ) || (node_at(*old(node), q, 0) is Some && node_at(*old(node), q, 0)->0.recipe
                == node_at(*final(node), q, 0)->0.recipe)),
    decreases comps.len() - ci,
{
    let ghost target = insert_target(comps.deep_view(), ci as int, leaf_name@);
    if ci == comps.len() {
        proof {
            assert(comps.deep_view().subrange(ci as int, comps.deep_view().len() as int)
                =~= Seq::<Seq<char>>::empty());
            assert(target =~= Seq::<Seq<char>>::empty().push(leaf_name@));
            assert(target.len() == 1 && target[0] == leaf_name@);
        }
        let leaf = RecipeTree::new_with_recipe(leaf_name, leaf_path, entry);
        match node.find_child(leaf.name.as_str()) {
            Some(i) => {
                proof {
                    lemma_child_at_remove_other_all(
                        old(node).children@,
                        i as int,
                        leaf.name@,
                    );
                }
                node.children.remove(i);
                proof {
                    lemma_wf_after_remove(*old(node), *node, i as int, leaf.name@);
                }
            },
            None => {},
        }
        let key = leaf.name.clone();
        let ghost mid = *node;
        node.children.push((key, leaf));
        proof {
            assert(node.children@.drop_last() =~= mid.children@);
            lemma_wf_after_push(mid, *node, leaf.name@, leaf);
            assert(node.children@ =~= mid.children@.push((key, leaf)));
            lemma_child_at_push_self(mid.children@, (key, leaf));
            assert(child_at(node.children@, leaf.name@) == Some(leaf));
            assert(target[0] == leaf.name@);
            assert(child_at(node.children@, target[0]) == Some(leaf));
            assert(descend(leaf, target, 1) == leaf.recipe);
            assert(leaf.recipe == Some(entry));
            assert(descend(*node, target, 0) == Some(entry));
            assert forall|m: Seq<char>| m != leaf.name@ implies #[trigger] child_at(
                node.children@,
                m,
            ) == child_at(old(node).children@, m) by {
                lemma_child_at_push_other(mid.children@, (key, leaf), m);
            }
            assert forall|q: Seq<Seq<char>>| diverges(q, target) implies descend(
                *node,
                q,
                0,
            ) == descend(*old(node), q, 0) by {
                let d = choose|d: int|
                    0 <= d < q.len() && d < target.len() && #[trigger] q[d] != target[d];
                assert(d == 0);
                assert(child_at(node.children@, q[0]) == child_at(
                    old(node).children@,
                    q[0],
                ));
            }
            assert forall|q: Seq<Seq<char>>|
                #[trigger] node_at(*node, q, 0) is Some implies node_at(*old(node), q, 0)
                is Some || is_prefix(q, target) by {
                if q.len() == 0 {
                    assert(node_at(*old(node), q, 0) == Some(*old(node)));
                } else if q[0] == leaf.name@ {
                    lemma_node_at_shift(leaf, q, 1);
                    let qsub = q.subrange(1, q.len() as int);
                    assert(node_at(*node, q, 0) == node_at(leaf, qsub, 0));
                    if qsub.len() == 0 {
                        assert(is_prefix(q, target));
                    } else {
                        assert(child_at(leaf.children@, qsub[0]) is None);
                        assert(node_at(leaf, qsub, 0) is None);
                    }
                } else {
                    assert(child_at(node.children@, q[0]) == child_at(
                        old(node).children@,
                        q[0],
                    ));
                    assert(node_at(*node, q, 0) == node_at(*old(node), q, 0));
                }
            }
            assert forall|q: Seq<Seq<char>>|
                (#[trigger] node_at(*node, q, 0) is Some && node_at(*node, q, 0)->0.recipe
                    is Some) implies (q == target || (node_at(*old(node), q, 0) is Some
                && node_at(*old(node), q, 0)->0.recipe == node_at(*node, q, 0)->0.recipe))
                by {
                if q.len() == 0 {
                    assert(node_at(*old(node), q, 0) == Some(*old(node)));
                    assert(node.recipe == old(node).recipe);
                } else if q[0] == leaf.name@ {
                    lemma_node_at_shift(leaf, q, 1);
                    let qsub = q.subrange(1, q.len() as int);
                    if qsub.len() == 0 {
                        assert(q =~= target);
                    } else {
                        assert(child_at(leaf.children@, qsub[0]) is None);
                        assert(node_at(leaf, qsub, 0) is None);
                    }
                } else {
                    assert(child_at(node.children@, q[0]) == child_at(
                        old(node).children@,
                        q[0],
                    ));
                    assert(node_at(*node, q, 0) == node_at(*old(node), q, 0));
                }
            }
        }
    } else {
        proof {
            assert(target[0] == comps.deep_view()[ci as int]);
            assert(target.subrange(1, target.len() as int) =~= insert_target(
                comps.deep_view(),
                ci as int + 1,
                leaf_name@,
            ));
            assert(comps.deep_view()[ci as int] == comps@[ci as int]@);
        }
        match node.find_child(comps[ci].as_str()) {
            Some(i) => {
                proof {
                    lemma_child_at_found(old(node).children@, comps@[ci as int]@, i as int);
                    lemma_child_at_remove_other_all(
                        old(node).children@,
                        i as int,
                        comps@[ci as int]@,
                    );
                }
                let (key, mut child) = node.children.remove(i);
                let ghost pre_child = child;
                proof {
                    assert(tree_wf(child));
                    lemma_wf_after_remove(*old(node), *node, i as int, key@);
                }
                insert_at(&mut child, comps, ci + 1, leaf_name, leaf_path, entry);
                let ghost mid = *node;
                let ghost fixed = child;
                node.children.push((key, child));
                proof {
                    assert(node.children@.drop_last() =~= mid.children@);
                    lemma_wf_after_push(mid, *node, key@, fixed);
                    assert(node.children@ =~= mid.children@.push((key, fixed)));
                    lemma_child_at_push_self(mid.children@, (key, fixed));
                    assert forall|m: Seq<char>|
                        m != comps.deep_view()[ci as int] implies #[trigger] child_at(
                        node.children@,
                        m,
                    ) == child_at(old(node).children@, m) by {
                        lemma_child_at_push_other(mid.children@, (key, fixed), m);
                    }
                    lemma_insert_descend_glue(
                        *old(node),
                        *node,
                        pre_child,
                        fixed,
                        comps.deep_view(),
                        ci as int,
                        leaf_name@,
                        entry,
                    );
                }
            },
            None => {
                proof {
                    lemma_child_at_absent(old(node).children@, comps@[ci as int]@);
                }
                let cpath = join_path(node.path.as_str(), comps[ci].as_str());
                let mut child = RecipeTree::new(comps[ci].clone(), cpath);
                let ghost pre_child = child;
                insert_at(&mut child, comps, ci + 1, leaf_name, leaf_path, entry);
                let ghost mid = *node;
                let ghost fixed = child;
                node.children.push((comps[ci].clone(), child));
                proof {
                    assert(node.children@.drop_last() =~= mid.children@);
                    lemma_wf_after_push(mid, *node, comps@[ci as int]@, fixed);
                    assert(node.children@ =~= mid.children@.push(
                        (node.children@.last().0, fixed),
                    ));
                    lemma_child_at_push_self(
                        mid.children@,
                        (node.children@.last().0, fixed),
                    );
                    assert forall|m: Seq<char>|
                        m != comps.deep_view()[ci as int] implies #[trigger] child_at(
                        node.children@,
                        m,
                    ) == child_at(old(node).children@, m) by {
                        lemma_child_at_push_other(
                            mid.children@,
                            (node.children@.last().0, fixed),
                            m,
                        );
                    }
                    lemma_insert_descend_glue_fresh(
                        *old(node),
                        *node,
                        pre_child,
                        fixed,
                        comps.deep_view(),
                        ci as int,
                        leaf_name@,
                        entry,
                    );
                }
            },
        }
    }
}

/// Removing one entry keeps every lookup of another name.
proof fn lemma_child_at_remove_other_all(
    s: Seq<(String, RecipeTree)>,
    i: int,
    name: Seq<char>,
)
    requires
        0 <= i < s.len(),
        s[i].0@ == name,
    ensures
        forall|m: Seq<char>|
            m != name ==> #[trigger] child_at(s.remove(i), m) == child_at(s, m),
{
    assert forall|m: Seq<char>| m != name implies #[trigger] child_at(s.remove(i), m)
        == child_at(s, m) by {
        lemma_child_at_remove_other(s, i, m);
    }
}

/// After a found-child insert, the target descends to the new leaf and
/// every diverging path descends as before.
#[verifier::spinoff_prover]
proof fn lemma_insert_descend_glue(
    before: RecipeTree,
    after: RecipeTree,
    pre_child: RecipeTree,
    fixed: RecipeTree,
    comps: Seq<Seq<char>>,
    ci: int,
    leaf: Seq<char>,
    entry: RecipeEntry,
)
    requires
        0 <= ci < comps.len(),
        child_at(before.children@, comps[ci]) == Some(pre_child),
        child_at(after.children@, comps[ci]) == Some(fixed),
        forall|m: Seq<char>|
            m != comps[ci] ==> #[trigger] child_at(after.children@, m) == child_at(
                before.children@,
                m,
            ),
        descend(fixed, insert_target(comps, ci + 1, leaf), 0) == Some(entry),
        forall|q: Seq<Seq<char>>|
            diverges(q, insert_target(comps, ci + 1, leaf)) ==> #[trigger] descend(
                fixed,
                q,
                0,
            ) == descend(pre_child, q, 0),
        forall|q: Seq<Seq<char>>|
            #[trigger] node_at(fixed, q, 0) is Some ==> node_at(pre_child, q, 0) is Some
                || is_prefix(q, insert_target(comps, ci + 1, leaf)),
        forall|q: Seq<Seq<char>>|
            (#[trigger] node_at(fixed, q, 0) is Some && node_at(fixed, q, 0)->0.recipe
                is Some) ==> (q == insert_target(comps, ci + 1, leaf) || (node_at(
                pre_child,
                q,
                0,
            ) is Some && node_at(pre_child, q, 0)->0.recipe == node_at(
                fixed,
                q,
                0,
            )->0.recipe)),
        after.recipe == before.recipe,
    ensures
        descend(after, insert_target(comps, ci, leaf), 0) == Some(entry),
        forall|q: Seq<Seq<char>>|
            diverges(q, insert_target(comps, ci, leaf)) ==> #[trigger] descend(after, q, 0)
                == descend(before, q, 0),
        forall|q: Seq<Seq<char>>|
            #[trigger] node_at(after, q, 0) is Some ==> node_at(before, q, 0) is Some
                || is_prefix(q, insert_target(comps, ci, leaf)),
        forall|q: Seq<Seq<char>>|
            (#[trigger] node_at(after, q, 0) is Some && node_at(after, q, 0)->0.recipe
                is Some) ==> (q == insert_target(comps, ci, leaf) || (node_at(
                before,
                q,
                0,
            ) is Some && node_at(before, q, 0)->0.recipe == node_at(
                after,
                q,
                0,
            )->0.recipe)),
{
    let target = insert_target(comps, ci, leaf);
    let target1 = insert_target(comps, ci + 1, leaf);
    assert(target[0] == comps[ci]);
    assert(target.subrange(1, target.len() as int) =~= target1);
    lemma_descend_shift(fixed, target, 1);
    assert(descend(after, target, 0) == descend(fixed, target, 1));
    assert forall|q: Seq<Seq<char>>| diverges(q, target) implies #[trigger] descend(
        after,
        q,
        0,
    ) == descend(before, q, 0) by {
        let d = choose|d: int|
            0 <= d < q.len() && d < target.len() && #[trigger] q[d] != target[d];
        if q[0] != target[0] {
            assert(child_at(after.children@, q[0]) == child_at(before.children@, q[0]));
        } else {
            assert(d >= 1);
            let qsub = q.subrange(1, q.len() as int);
            assert(qsub[d - 1] == q[d]);
            assert(target1[d - 1] == target[d]);
            assert(diverges(qsub, target1));
            lemma_descend_shift(fixed, q, 1);
            lemma_descend_shift(pre_child, q, 1);
            assert(descend(fixed, qsub, 0) == descend(pre_child, qsub, 0));
            assert(descend(after, q, 0) == descend(fixed, q, 1));
            assert(descend(before, q, 0) == descend(pre_child, q, 1));
        }
    }
    assert forall|q: Seq<Seq<char>>| #[trigger] node_at(after, q, 0) is Some implies
        node_at(before, q, 0) is Some || is_prefix(q, target) by {
        if q.len() == 0 {
            assert(node_at(before, q, 0) == Some(before));
        } else if q[0] != target[0] {
            assert(child_at(after.children@, q[0]) == child_at(before.children@, q[0]));
            assert(node_at(after, q, 0) == node_at(before, q, 0));
        } else {
            let qsub = q.subrange(1, q.len() as int);
            lemma_node_at_shift(fixed, q, 1);
            lemma_node_at_shift(pre_child, q, 1);
            assert(node_at(after, q, 0) == node_at(fixed, qsub, 0));
            if node_at(pre_child, qsub, 0) is Some {
                assert(node_at(before, q, 0) == node_at(pre_child, qsub, 0));
            } else {
                assert(is_prefix(qsub, target1));
                assert forall|d: int| 0 <= d < q.len() implies q[d] == target[d] by {
                    if d >= 1 {
                        assert(q[d] == qsub[d - 1]);
                        assert(target[d] == target1[d - 1]);
                    }
                }
                assert(is_prefix(q, target));
            }
        }
    }
    assert forall|q: Seq<Seq<char>>|
        (#[trigger] node_at(after, q, 0) is Some && node_at(after, q, 0)->0.recipe
            is Some) implies (q == target || (node_at(before, q, 0) is Some && node_at(
        before,
        q,
        0,
    )->0.recipe == node_at(after, q, 0)->0.recipe)) by {
        if q.len() == 0 {
            assert(node_at(before, q, 0) == Some(before));
        } else if q[0] != target[0] {
            assert(child_at(after.children@, q[0]) == child_at(before.children@, q[0]));
            assert(node_at(after, q, 0) == node_at(before, q, 0));
        } else {
            let qsub = q.subrange(1, q.len() as int);
            lemma_node_at_shift(fixed, q, 1);
            lemma_node_at_shift(pre_child, q, 1);
            assert(node_at(after, q, 0) == node_at(fixed, qsub, 0));
            if qsub == target1 {
                assert(q.len() == target.len());
                assert forall|d: int| 0 <= d < q.len() implies q[d] == target[d] by {
                    if d >= 1 {
                        assert(q[d] == qsub[d - 1]);
                        assert(target[d] == target1[d - 1]);
                    }
                }
                assert(q =~= target);
            } else {
                assert(node_at(pre_child, qsub, 0) is Some);
                assert(node_at(before, q, 0) == node_at(pre_child, qsub, 0));
            }
        }
    }
}

/// After an insert under a freshly created directory node, the target
/// descends to the new leaf and every diverging path descends as before.
#[verifier::spinoff_prover]
proof fn lemma_insert_descend_glue_fresh(
    before: RecipeTree,
    after: RecipeTree,
    pre_child: RecipeTree,
    fixed: RecipeTree,
    comps: Seq<Seq<char>>,
    ci: int,
    leaf: Seq<char>,
    entry: RecipeEntry,
)
    requires
        0 <= ci < comps.len(),
        child_at(before.children@, comps[ci]) is None,
        pre_child.children@.len() == 0,
        pre_child.recipe is None,
        child_at(after.children@, comps[ci]) == Some(fixed),
        forall|m: Seq<char>|
            m != comps[ci] ==> #[trigger] child_at(after.children@, m) == child_at(
                before.children@,
                m,
            ),
        descend(fixed, insert_target(comps, ci + 1, leaf), 0) == Some(entry),
        forall|q: Seq<Seq<char>>|
            diverges(q, insert_target(comps, ci + 1, leaf)) ==> #[trigger] descend(
                fixed,
                q,
                0,
            ) == descend(pre_child, q, 0),
        forall|q: Seq<Seq<char>>|
            #[trigger] node_at(fixed, q, 0) is Some ==> node_at(pre_child, q, 0) is Some
                || is_prefix(q, insert_target(comps, ci + 1, leaf)),
        forall|q: Seq<Seq<char>>|
            (#[trigger] node_at(fixed, q, 0) is Some && node_at(fixed, q, 0)->0.recipe
                is Some) ==> (q == insert_target(comps, ci + 1, leaf) || (node_at(
                pre_child,
                q,
                0,
            ) is Some && node_at(pre_child, q, 0)->0.recipe == node_at(
                fixed,
                q,
                0,
            )->0.recipe)),
        after.recipe == before.recipe,
    ensures
        descend(after, insert_target(comps, ci, leaf), 0) == Some(entry),
        forall|q: Seq<Seq<char>>|
            diverges(q, insert_target(comps, ci, leaf)) ==> #[trigger] descend(after, q, 0)
                == descend(before, q, 0),
        forall|q: Seq<Seq<char>>|
            #[trigger] node_at(after, q, 0) is Some ==> node_at(before, q, 0) is Some
                || is_prefix(q, insert_target(comps, ci, leaf)),
        forall|q: Seq<Seq<char>>|
            (#[trigger] node_at(after, q, 0) is Some && node_at(after, q, 0)->0.recipe
                is Some) ==> (q == insert_target(comps, ci, leaf) || (node_at(
                before,
                q,
                0,
            ) is Some && node_at(before, q, 0)->0.recipe == node_at(
                after,
                q,
                0,
            )->0.recipe)),
{
    let target = insert_target(comps, ci, leaf);
    let target1 = insert_target(comps, ci + 1, leaf);
    assert(target[0] == comps[ci]);
    assert(target.subrange(1, target.len() as int) =~= target1);
    lemma_descend_shift(fixed, target, 1);
    assert(descend(after, target, 0) == descend(fixed, target, 1));
    assert forall|q: Seq<Seq<char>>| diverges(q, target) implies #[trigger] descend(
        after,
        q,
        0,
    ) == descend(before, q, 0) by {
        let d = choose|d: int|
            0 <= d < q.len() && d < target.len() && #[trigger] q[d] != target[d];
        if q[0] != target[0] {
            assert(child_at(after.children@, q[0]) == child_at(before.children@, q[0]));
        } else {
            assert(d >= 1);
            let qsub = q.subrange(1, q.len() as int);
            assert(qsub[d - 1] == q[d]);
            assert(target1[d - 1] == target[d]);
            assert(diverges(qsub, target1));
            lemma_descend_shift(fixed, q, 1);
            assert(descend(fixed, qsub, 0) == descend(pre_child, qsub, 0));
            assert(qsub.len() > 0);
            assert(child_at(pre_child.children@, qsub[0]) is None);
            assert(descend(pre_child, qsub, 0) is None);
            assert(descend(after, q, 0) == descend(fixed, q, 1));
            assert(descend(before, q, 0) is None);
        }
    }
    assert forall|q: Seq<Seq<char>>| #[trigger] node_at(after, q, 0) is Some implies
        node_at(before, q, 0) is Some || is_prefix(q, target) by {
        if q.len() == 0 {
            assert(node_at(before, q, 0) == Some(before));
        } else if q[0] != target[0] {
            assert(child_at(after.children@, q[0]) == child_at(before.children@, q[0]));
            assert(node_at(after, q, 0) == node_at(before, q, 0));
        } else {
            let qsub = q.subrange(1, q.len() as int);
            lemma_node_at_shift(fixed, q, 1);
            assert(node_at(after, q, 0) == node_at(fixed, qsub, 0));
            if node_at(pre_child, qsub, 0) is Some {
                assert(qsub.len() == 0);
                assert(is_prefix(q, target));
            } else {
                assert(is_prefix(qsub, target1));
                assert forall|d: int| 0 <= d < q.len() implies q[d] == target[d] by {
                    if d >= 1 {
                        assert(q[d] == qsub[d - 1]);
                        assert(target[d] == target1[d - 1]);
                    }
                }
                assert(is_prefix(q, target));
            }
        }
    }
    assert forall|q: Seq<Seq<char>>|
        (#[trigger] node_at(after, q, 0) is Some && node_at(after, q, 0)->0.recipe
            is Some) implies (q == target || (node_at(before, q, 0) is Some && node_at(
        before,
        q,
        0,
    )->0.recipe == node_at(after, q, 0)->0.recipe)) by {
        if q.len() == 0 {
            assert(node_at(before, q, 0) == Some(before));
        } else if q[0] != target[0] {
            assert(child_at(after.children@, q[0]) == child_at(before.children@, q[0]));
            assert(node_at(after, q, 0) == node_at(before, q, 0));
        } else {
            let qsub = q.subrange(1, q.len() as int);
            lemma_node_at_shift(fixed, q, 1);
            assert(node_at(after, q, 0) == node_at(fixed, qsub, 0));
            if qsub == target1 {
                assert(q.len() == target.len());
                assert forall|d: int| 0 <= d < q.len() implies q[d] == target[d] by {
                    if d >= 1 {
                        assert(q[d] == qsub[d - 1]);
                        assert(target[d] == target1[d - 1]);
                    }
                }
                assert(q =~= target);
            } else {
                assert(node_at(pre_child, qsub, 0) is Some && node_at(
                    pre_child,
                    qsub,
                    0,
                )->0.recipe == node_at(fixed, qsub, 0)->0.recipe);
                if qsub.len() == 0 {
                    assert(node_at(pre_child, qsub, 0) == Some(pre_child));
                    assert(false);
                } else {
                    assert(child_at(pre_child.children@, qsub[0]) is None);
                    assert(false);
                }
            }
        }
    }
}

/// Removing a child keeps the tree well-formed, and when the removed one
/// was the only child with its name, no child of that name is left.
proof fn lemma_wf_after_remove(before: RecipeTree, after: RecipeTree, i: int, name: Seq<char>)
    requires
        tree_wf(before),
        0 <= i < before.children@.len(),
        before.children@[i].0@ == name,
        after.children@ == before.children@.remove(i),
        after.name == before.name,
        after.path == before.path,
        after.recipe == before.recipe,
    ensures
        tree_wf(after),
        forall|k: int|
            0 <= k < after.children@.len() ==> (#[trigger] after.children@[k]).0@ != name,
{
    let b = before.children@;
    let a = after.children@;
    assert forall|k: int| 0 <= k < a.len() implies (#[trigger] a[k]).0@ != name by {
        if k < i {
            assert(a[k] == b[k]);
        } else {
            assert(a[k] == b[k + 1]);
        }
    }
    assert forall|p: int, q: int| 0 <= p < q < a.len() implies (#[trigger] a[p]).0@ != (
    #[trigger] a[q]).0@ by {
        let bp = if p < i {
            p
        } else {
            p + 1
        };
        let bq = if q < i {
            q
        } else {
            q + 1
        };
        assert(a[p] == b[bp]);
        assert(a[q] == b[bq]);
    }
    assert forall|k: int| 0 <= k < a.len() implies tree_wf((#[trigger] a[k]).1) by {
        if k < i {
            assert(a[k] == b[k]);
        } else {
            assert(a[k] == b[k + 1]);
        }
    }
}

/// Pushing a well-formed child under a fresh name keeps the tree
/// well-formed.
proof fn lemma_wf_after_push(
    before: RecipeTree,
    after: RecipeTree,
    name: Seq<char>,
    child: RecipeTree,
)
    requires
        tree_wf(before),
        forall|k: int|
            0 <= k < before.children@.len() ==> (#[trigger] before.children@[k]).0@ != name,
        tree_wf(child),
        after.children@.len() == before.children@.len() + 1,
        after.children@.last().0@ == name,
        after.children@.last().1 == child,
        after.children@.drop_last() == before.children@,
    ensures
        tree_wf(after),
{
    let b = before.children@;
    let a = after.children@;
    assert forall|p: int, q: int| 0 <= p < q < a.len() implies (#[trigger] a[p]).0@ != (
    #[trigger] a[q]).0@ by {
        if q < a.len() - 1 {
            assert(a[p] == b[p]);
            assert(a[q] == b[q]);
        } else {
            assert(a[p] == b[p]);
            assert(a[q] == a.last());
        }
    }
    assert forall|k: int| 0 <= k < a.len() implies tree_wf((#[trigger] a[k]).1) by {
        if k < a.len() - 1 {
            assert(a[k] == b[k]);
        } else {
            assert(a[k] == a.last());
        }
    }
}

/// The root node's name: the base directory's file name, or `./` when it
/// has none.
pub open spec fn root_name_of(base: Seq<char>) -> Seq<char> {
    if file_name_of(base).len() > 0 {
        file_name_of(base)
    } else {
        "./"@
    }
}

/// The lookup path an entry is filed under: the directory components of
/// its path relative to the base, then its resolved name.
pub open spec fn entry_target(base: Seq<char>, p: Seq<char>, e: RecipeEntry) -> Seq<
    Seq<char>,
> {
    let comps = crate::paths::components_of(strip_prefix_of(p, base)->0);
    let dirs = if comps.len() > 0 {
        comps.drop_last()
    } else {
        comps
    };
    dirs.push(name_of_entry(e@)->0)
}

/// Builds the tree over the recipes found under `base_dir`, each given
/// as its path with its loaded entry, in discovery order.  The I/O layer
/// reports whether the base exists and is a directory; a missing or
/// non-directory base fails with the matching error, a recipe path not
/// under the base with a prefix error.  Each recipe becomes a leaf named
/// by its resolved name under directory nodes mirroring its relative
/// path.
pub fn build_tree_from_entries(
    base_dir: &str,
    dir_exists: bool,
    is_dir: bool,
    entries: Vec<(String, RecipeEntry)>,
) -> (r: Result<RecipeTree, TreeError>)
    requires
        forall|k: int|
            0 <= k < entries@.len() ==> name_of_entry(
                (#[trigger] entries@[k].1)@,
            ) is Some,
    ensures
        !dir_exists ==> (r matches Err(TreeError::DirectoryNotFound(p)) && p@ == base_dir@),
        dir_exists && !is_dir ==> (r matches Err(TreeError::NotADirectory(p)) && p@
            == base_dir@),
        dir_exists && is_dir ==> match r {
            Ok(t) => t.path@ == base_dir@ && t.name@ == root_name_of(base_dir@) && t.recipe
                is None && tree_wf(t) && (entries@.len() == 0 ==> t.children@.len() == 0)
                && (forall|k: int|
                0 <= k < entries@.len() && (forall|l: int|
                    k < l < entries@.len() ==> diverges(
                        entry_target(base_dir@, entries@[k].0@, entries@[k].1),
                        #[trigger] entry_target(base_dir@, entries@[l].0@, entries@[l].1),
                    )) ==> #[trigger] descend(
                    t,
                    entry_target(base_dir@, entries@[k].0@, entries@[k].1),
                    0,
                ) == Some(entries@[k].1)) && (forall|q: Seq<Seq<char>>|
                q.len() > 0 && #[trigger] node_at(t, q, 0) is Some ==> exists|k: int|
                    0 <= k < entries@.len() && is_prefix(
                        q,
                        #[trigger] entry_target(base_dir@, entries@[k].0@, entries@[k].1),
                    )) && (forall|q: Seq<Seq<char>>|
                (#[trigger] node_at(t, q, 0) is Some && node_at(t, q, 0)->0.recipe
                    is Some) ==> exists|k: int|
                    0 <= k < entries@.len() && q == #[trigger] entry_target(
                        base_dir@,
                        entries@[k].0@,
                        entries@[k].1,
                    )),
            Err(e) => e matches TreeError::StripPrefixError(p) && exists|k: int|
                0 <= k < entries@.len() && (#[trigger] entries@[k].0)@ == p@
                    && strip_prefix_of(entries@[k].0@, base_dir@) is None,
        },
{
    if !dir_exists {
        return Err(TreeError::DirectoryNotFound(base_dir.to_owned()));
    }
    if !is_dir {
        return Err(TreeError::NotADirectory(base_dir.to_owned()));
    }
    let base_name = match file_name(base_dir) {
        Some(n) => n,
        None => "./".to_owned(),
    };
    let mut root = RecipeTree::new(base_name, base_dir.to_owned());
    let ghost orig = entries@;
    let mut work = entries;
    let ghost mut done: int = 0;
    proof {
        assert forall|q: Seq<Seq<char>>| q.len() > 0 implies node_at(root, q, 0)
            is None by {
            assert(child_at(root.children@, q[0]) is None);
        }
    }
    while work.len() > 0
        invariant
            dir_exists,
            is_dir,
            orig == entries@,
            root.path@ == base_dir@,
            root.name@ == root_name_of(base_dir@),
            root.recipe is None,
            tree_wf(root),
            0 <= done <= orig.len(),
            work@ == orig.subrange(done, orig.len() as int),
            forall|k: int|
                0 <= k < orig.len() ==> name_of_entry((#[trigger] orig[k].1)@) is Some,
            forall|k: int|
                0 <= k < done && (forall|l: int|
                    k < l < orig.len() ==> diverges(
                        entry_target(base_dir@, orig[k].0@, orig[k].1),
                        #[trigger] entry_target(base_dir@, orig[l].0@, orig[l].1),
                    )) ==> #[trigger] descend(
                    root,
                    entry_target(base_dir@, orig[k].0@, orig[k].1),
                    0,
                ) == Some(orig[k].1),
            orig.len() == 0 ==> root.children@.len() == 0,
            forall|q: Seq<Seq<char>>|
                q.len() > 0 && #[trigger] node_at(root, q, 0) is Some ==> exists|k: int|
                    0 <= k < done && is_prefix(
                        q,
                        #[trigger] entry_target(base_dir@, orig[k].0@, orig[k].1),
                    ),
            forall|q: Seq<Seq<char>>|
                (#[trigger] node_at(root, q, 0) is Some && node_at(root, q, 0)->0.recipe
                    is Some) ==> exists|k: int|
                    0 <= k < done && q == #[trigger] entry_target(
                        base_dir@,
                        orig[k].0@,
                        orig[k].1,
                    ),
        decreases work.len(),
    {
        let (path, entry) = work.remove(0);
        proof {
            assert((path, entry) == orig[done]);
            assert(work@ =~= orig.subrange(done + 1, orig.len() as int));
        }
        let rel = match strip_prefix(path.as_str(), base_dir) {
            Some(rel) => rel,
            None => {
                proof {
                    assert(orig[done].0@ == path@);
                    assert(strip_prefix_of(orig[done].0@, base_dir@) is None);
                    assert(0 <= done < orig.len() && (#[trigger] orig[done].0)@ == path@
                        && strip_prefix_of(orig[done].0@, base_dir@) is None);
                }
                return Err(TreeError::StripPrefixError(path));
            },
        };
        let mut comps = split_components(rel.as_str());
        if comps.len() > 0 {
            comps.pop();
        }
        let name = match entry.name() {
            Some(n) => n,
            None => vstd::pervasive::unreached(),
        };
        let ghost pre_root = root;
        let ghost this_target = entry_target(base_dir@, orig[done].0@, orig[done].1);
        proof {
            assert(comps.deep_view() == if crate::paths::components_of(rel@).len() > 0 {
                crate::paths::components_of(rel@).drop_last()
            } else {
                crate::paths::components_of(rel@)
            });
            assert(insert_target(comps.deep_view(), 0, name@) =~= this_target);
        }
        insert_at(&mut root, &comps, 0, name, path, entry);
        proof {
            assert(descend(root, this_target, 0) == Some(orig[done].1));
            assert forall|k: int|
                0 <= k < done + 1 && (forall|l: int|
                    k < l < orig.len() ==> diverges(
                        entry_target(base_dir@, orig[k].0@, orig[k].1),
                        #[trigger] entry_target(base_dir@, orig[l].0@, orig[l].1),
                    )) implies #[trigger] descend(
                root,
                entry_target(base_dir@, orig[k].0@, orig[k].1),
                0,
            ) == Some(orig[k].1) by {
                if k < done {
                    assert(diverges(
                        entry_target(base_dir@, orig[k].0@, orig[k].1),
                        entry_target(base_dir@, orig[done].0@, orig[done].1),
                    ));
                    assert(descend(pre_root, entry_target(base_dir@, orig[k].0@, orig[k].1), 0)
                        == Some(orig[k].1));
                }
            }
            assert forall|q: Seq<Seq<char>>|
                q.len() > 0 && #[trigger] node_at(root, q, 0) is Some implies exists|k: int|
                0 <= k < done + 1 && is_prefix(
                    q,
                    #[trigger] entry_target(base_dir@, orig[k].0@, orig[k].1),
                ) by {
                if node_at(pre_root, q, 0) is Some {
                    let k = choose|k: int|
                        0 <= k < done && is_prefix(
                            q,
                            #[trigger] entry_target(base_dir@, orig[k].0@, orig[k].1),
                        );
                    assert(is_prefix(q, entry_target(base_dir@, orig[k].0@, orig[k].1)));
                } else {
                    assert(is_prefix(q, this_target));
                    assert(is_prefix(
                        q,
                        entry_target(base_dir@, orig[done].0@, orig[done].1),
                    ));
                }
            }
            assert forall|q: Seq<Seq<char>>|
                (#[trigger] node_at(root, q, 0) is Some && node_at(root, q, 0)->0.recipe
                    is Some) implies exists|k: int|
                0 <= k < done + 1 && q == #[trigger] entry_target(
                    base_dir@,
                    orig[k].0@,
                    orig[k].1,
                ) by {
                if q == this_target {
                    assert(q == entry_target(base_dir@, orig[done].0@, orig[done].1));
                } else {
                    assert(node_at(pre_root, q, 0) is Some && node_at(
                        pre_root,
                        q,
                        0,
                    )->0.recipe is Some);
                    let k = choose|k: int|
                        0 <= k < done && q == #[trigger] entry_target(
                            base_dir@,
                            orig[k].0@,
                            orig[k].1,
                        );
                    assert(q == entry_target(base_dir@, orig[k].0@, orig[k].1));
                }
            }
            done = done + 1;
        }
    }
    Ok(root)
}

} // verus!
