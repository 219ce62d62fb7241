use vstd::prelude::*;

use crate::node::{mode_of, readable, with_mode, Node, NodeView};
use crate::path::{is_prefix, is_strict_prefix, AbsPath, PathModel};

verus! {

/// One row of the table: a path and the node stored there.
#[derive(Debug)]
pub struct Entry {
    pub path: AbsPath,
    pub node: Node,
}

pub open spec fn has_key(s: Seq<Entry>, k: PathModel) -> bool {
    exists|i: int| 0 <= i < s.len() && #[trigger] s[i].path@ == k
}

pub open spec fn index_of(s: Seq<Entry>, k: PathModel) -> int {
    choose|i: int| 0 <= i < s.len() && #[trigger] s[i].path@ == k
}

/// The map from path to node that a sequence of rows stands for.
pub open spec fn table_map(s: Seq<Entry>) -> Map<PathModel, NodeView> {
    Map::new(|k: PathModel| has_key(s, k), |k: PathModel| s[index_of(s, k)].node@)
}

pub open spec fn unique_keys(s: Seq<Entry>) -> bool {
    forall|i: int, j: int|
        0 <= i < s.len() && 0 <= j < s.len() && i != j ==> #[trigger] s[i].path@
            != #[trigger] s[j].path@
}

/// `m` without `p` and everything below it.
pub open spec fn without_subtree(m: Map<PathModel, NodeView>, p: PathModel) -> Map<
    PathModel,
    NodeView,
> {
    Map::new(|k: PathModel| m.contains_key(k) && !is_prefix(p, k), |k: PathModel| m[k])
}

/// Where a path lands when the subtree at `from` is moved to `to`.
pub open spec fn relocate(k: PathModel, from: PathModel, to: PathModel) -> PathModel {
    if is_prefix(from, k) {
        to + k.skip(from.len() as int)
    } else {
        k
    }
}

/// `m` with `from` and everything below it moved under the name `to`.
pub open spec fn moved(m: Map<PathModel, NodeView>, from: PathModel, to: PathModel) -> Map<
    PathModel,
    NodeView,
> {
    Map::new(
        |k: PathModel|
            (m.contains_key(k) && !is_prefix(from, k)) || (is_prefix(to, k) && m.contains_key(
                from + k.skip(to.len() as int),
            )),
        |k: PathModel|
            if is_prefix(to, k) && m.contains_key(from + k.skip(to.len() as int)) {
                m[from + k.skip(to.len() as int)]
            } else {
                m[k]
            },
    )
}

/// The paths one level below `p`.
pub open spec fn child_paths(m: Map<PathModel, NodeView>, p: PathModel) -> Set<PathModel> {
    Set::new(|k: PathModel| m.contains_key(k) && k.len() > 0 && k.drop_last() == p)
}

pub open spec fn has_below(m: Map<PathModel, NodeView>, p: PathModel) -> bool {
    exists|k: PathModel| m.contains_key(k) && is_strict_prefix(p, k)
}

pub open spec fn all_below_readable(m: Map<PathModel, NodeView>, p: PathModel) -> bool {
    forall|k: PathModel| m.contains_key(k) && is_strict_prefix(p, k) ==> readable(mode_of(m[k]))
}

proof fn lemma_at(s: Seq<Entry>, i: int)
    requires
        unique_keys(s),
        0 <= i < s.len(),
    ensures
        table_map(s).contains_key(s[i].path@),
        table_map(s)[s[i].path@] == s[i].node@,
{
    let k = s[i].path@;
    assert(has_key(s, k));
    let j = index_of(s, k);
    assert(s[j].path@ == k);
}

proof fn lemma_key_entry(s: Seq<Entry>, k: PathModel) -> (i: int)
    requires
        table_map(s).contains_key(k),
    ensures
        0 <= i < s.len(),
        s[i].path@ == k,
{
    assert(has_key(s, k));
    choose|i: int| 0 <= i < s.len() && #[trigger] s[i].path@ == k
}

/// Rows whose keys are unique stand for `m` when each row is in `m` and each
/// key of `m` has a row.
proof fn lemma_map_eq(s: Seq<Entry>, m: Map<PathModel, NodeView>)
    requires
        unique_keys(s),
        forall|i: int|
            0 <= i < s.len() ==> m.contains_key(#[trigger] s[i].path@) && m[s[i].path@]
                == s[i].node@,
        forall|k: PathModel| m.contains_key(k) ==> has_key(s, k),
    ensures
        table_map(s) == m,
{
    assert forall|k: PathModel| table_map(s).contains_key(k) <==> m.contains_key(k) by {
        if table_map(s).contains_key(k) {
            let i = lemma_key_entry(s, k);
            assert(m.contains_key(s[i].path@));
        }
    }
    assert forall|k: PathModel| m.contains_key(k) implies table_map(s)[k] == m[k] by {
        let i = lemma_key_entry(s, k);
        lemma_at(s, i);
    }
    assert(table_map(s) =~= m);
}

proof fn lemma_finite(s: Seq<Entry>)
    requires
        unique_keys(s),
    ensures
        table_map(s).dom().finite(),
        table_map(s).dom().len() == s.len(),
    decreases s.len(),
{
    if s.len() == 0 {
        assert(table_map(s).dom() =~= Set::empty());
    } else {
        let t = s.drop_last();
        assert(unique_keys(t)) by {
            assert forall|i: int, j: int|
                0 <= i < t.len() && 0 <= j < t.len() && i != j implies #[trigger] t[i].path@
                != #[trigger] t[j].path@ by {
                assert(t[i] == s[i] && t[j] == s[j]);
            }
        }
        lemma_finite(t);
        let k = s.last().path@;
        assert forall|x: PathModel| table_map(s).dom().contains(x) <==> table_map(
            t,
        ).dom().insert(k).contains(x) by {
            if table_map(s).dom().contains(x) {
                let i = lemma_key_entry(s, x);
                if i < t.len() {
                    assert(t[i] == s[i]);
                    assert(has_key(t, x));
                }
            }
            if table_map(t).dom().contains(x) {
                let i = lemma_key_entry(t, x);
                assert(t[i] == s[i]);
                assert(has_key(s, x));
            }
            if x == k {
                assert(s[s.len() - 1].path@ == k);
                assert(has_key(s, x));
            }
        }
        assert(table_map(s).dom() =~= table_map(t).dom().insert(k));
        assert(!table_map(t).dom().contains(k)) by {
            if table_map(t).dom().contains(k) {
                let i = lemma_key_entry(t, k);
                assert(t[i] == s[i]);
                assert(s[i].path@ == s[s.len() - 1].path@);
            }
        }
    }
}

proof fn lemma_concat_skip(a: PathModel, x: PathModel)
    ensures
        (a + x).skip(a.len() as int) == x,
        is_prefix(a, a + x),
{
    assert((a + x).skip(a.len() as int) =~= x);
    assert((a + x).subrange(0, a.len() as int) =~= a);
}

proof fn lemma_prefix_split(a: PathModel, k: PathModel)
    requires
        is_prefix(a, k),
    ensures
        a + k.skip(a.len() as int) == k,
{
    assert(a + k.skip(a.len() as int) =~= k);
}

/// The path-to-node table: rows with pairwise different paths.
#[derive(Debug)]
pub struct NodeTable {
    entries: Vec<Entry>,
}

impl View for NodeTable {
    type V = Map<PathModel, NodeView>;

    closed spec fn view(&self) -> Map<PathModel, NodeView> {
        table_map(self.entries@)
    }
}

impl NodeTable {
    pub closed spec fn wf(&self) -> bool {
        unique_keys(self.entries@)
    }

    pub fn new() -> (r: NodeTable)
        ensures
            r.wf(),
            r@ == Map::<PathModel, NodeView>::empty(),
    {
        let r = NodeTable { entries: Vec::new() };
        assert(r@ =~= Map::<PathModel, NodeView>::empty());
        r
    }

    pub fn len(&self) -> (r: usize)
        requires
            self.wf(),
        ensures
            self@.dom().finite(),
            r == self@.dom().len(),
    {
        proof {
            lemma_finite(self.entries@);
        }
        self.entries.len()
    }

    fn find(&self, p: &AbsPath) -> (r: Option<usize>)
        requires
            self.wf(),
        ensures
            match r {
                Some(i) => i < self.entries@.len() && self.entries@[i as int].path@ == p@,
                None => !self@.contains_key(p@),
            },
    {
        let mut i: usize = 0;
        while i < self.entries.len()
            invariant
                0 <= i <= self.entries@.len(),
                forall|j: int| 0 <= j < i ==> (#[trigger] self.entries@[j]).path@ != p@,
            decreases self.entries@.len() - i,
        {
            if self.entries[i].path.same(p) {
                return Some(i);
            }
            i = i + 1;
        }
        proof {
            if self@.contains_key(p@) {
                let j = lemma_key_entry(self.entries@, p@);
                assert(self.entries@[j].path@ == p@);
            }
        }
        None
    }

    pub fn get(&self, p: &AbsPath) -> (r: Option<&Node>)
        requires
            self.wf(),
        ensures
            r is Some <==> self@.contains_key(p@),
            r is Some ==> r->0@ == self@[p@],
    {
        match self.find(p) {
            Some(i) => {
                proof {
                    lemma_at(self.entries@, i as int);
                }
                Some(&self.entries[i].node)
            },
            None => None,
        }
    }

    pub fn contains(&self, p: &AbsPath) -> (r: bool)
        requires
            self.wf(),
        ensures
            r == self@.contains_key(p@),
    {
        self.find(p).is_some()
    }

    /// Adds a row for a path that has none.
    pub fn insert(&mut self, p: AbsPath, n: Node)
        requires
            old(self).wf(),
            !old(self)@.contains_key(p@),
        ensures
            final(self).wf(),
            final(self)@ == old(self)@.insert(p@, n@),
    {
        let ghost s = self.entries@;
        let ghost m = old(self)@;
        let ghost key = p@;
        let ghost val = n@;
        proof {
            assert forall|j: int| 0 <= j < s.len() implies s[j].path@ != key by {
                lemma_at(s, j);
            }
        }
        self.entries.push(Entry { path: p, node: n });
        proof {
            let s2 = self.entries@;
            let m2 = m.insert(key, val);
            assert(unique_keys(s2)) by {
                assert forall|i: int, j: int|
                    0 <= i < s2.len() && 0 <= j < s2.len() && i != j implies #[trigger] s2[i].path@
                    != #[trigger] s2[j].path@ by {
                    if i < s.len() && j < s.len() {
                        assert(s2[i] == s[i] && s2[j] == s[j]);
                    } else if i < s.len() {
                        assert(s2[i] == s[i]);
                    } else {
                        assert(s2[j] == s[j]);
                    }
                }
            }
            assert forall|i: int| 0 <= i < s2.len() implies m2.contains_key(
                #[trigger] s2[i].path@,
            ) && m2[s2[i].path@] == s2[i].node@ by {
                if i < s.len() {
                    assert(s2[i] == s[i]);
                    lemma_at(s, i);
                }
            }
            assert forall|k: PathModel| m2.contains_key(k) implies has_key(s2, k) by {
                if k == key {
                    assert(s2[s.len() as int].path@ == k);
                } else {
                    let i = lemma_key_entry(s, k);
                    assert(s2[i] == s[i]);
                }
            }
            lemma_map_eq(s2, m2);
        }
    }

    /// Takes out the row of `p`, if there is one.
    pub fn remove(&mut self, p: &AbsPath) -> (r: Option<Node>)
        requires
            old(self).wf(),
        ensures
            final(self).wf(),
            final(self)@ == old(self)@.remove(p@),
            r is Some <==> old(self)@.contains_key(p@),
            r is Some ==> r->0@ == old(self)@[p@],
    {
        match self.find(p) {
            None => {
                assert(self@ =~= self@.remove(p@));
                None
            },
            Some(i) => {
                let ghost s = self.entries@;
                let ghost m = self@;
                proof {
                    lemma_at(s, i as int);
                }
                let e = self.entries.remove(i);
                proof {
                    let s2 = self.entries@;
                    let m2 = m.remove(p@);
                    assert(s2 =~= s.remove(i as int));
                    assert(forall|j: int| 0 <= j < i ==> s2[j] == s[j]);
                    assert(forall|j: int| i <= j < s2.len() ==> s2[j] == s[j + 1]);
                    assert(unique_keys(s2)) by {
                        assert forall|a: int, b: int|
                            0 <= a < s2.len() && 0 <= b < s2.len() && a != b implies #[trigger] s2[a].path@
                            != #[trigger] s2[b].path@ by {
                            let a0 = if a < i { a } else { a + 1 };
                            let b0 = if b < i { b } else { b + 1 };
                            assert(s2[a] == s[a0] && s2[b] == s[b0]);
                        }
                    }
                    assert forall|j: int| 0 <= j < s2.len() implies m2.contains_key(
                        #[trigger] s2[j].path@,
                    ) && m2[s2[j].path@] == s2[j].node@ by {
                        let j0 = if j < i { j } else { j + 1 };
                        assert(s2[j] == s[j0]);
                        lemma_at(s, j0);
                    }
                    assert forall|k: PathModel| m2.contains_key(k) implies has_key(s2, k) by {
                        let j0 = lemma_key_entry(s, k);
                        if j0 < i {
                            assert(s2[j0] == s[j0]);
                        } else {
                            assert(j0 != i);
                            assert(s2[j0 - 1] == s[j0]);
                        }
                    }
                    lemma_map_eq(s2, m2);
                }
                Some(e.node)
            },
        }
    }

    /// Puts `n` in place of the node at `i`, keeping its path.
    fn replace_at(&mut self, i: usize, n: Node) -> (r: Node)
        requires
            old(self).wf(),
            i < old(self).entries@.len(),
        ensures
            final(self).wf(),
            final(self)@ == old(self)@.insert(old(self).entries@[i as int].path@, n@),
            r@ == old(self)@[old(self).entries@[i as int].path@],
            final(self).entries@.len() == old(self).entries@.len(),
            final(self).entries@[i as int].path@ == old(self).entries@[i as int].path@,
    {
        let ghost s = self.entries@;
        let ghost m = self@;
        let ghost key = s[i as int].path@;
        proof {
            lemma_at(s, i as int);
        }
        let e = self.entries.remove(i);
        let Entry { path, node } = e;
        self.entries.insert(i, Entry { path, node: n });
        proof {
            let s2 = self.entries@;
            let m2 = m.insert(key, n@);
            assert(forall|j: int| 0 <= j < s.len() && j != i ==> s2[j] == s[j]);
            assert(s2[i as int].path@ == key);
            assert(unique_keys(s2)) by {
                assert forall|a: int, b: int|
                    0 <= a < s2.len() && 0 <= b < s2.len() && a != b implies #[trigger] s2[a].path@
                    != #[trigger] s2[b].path@ by {
                    assert(s2[a].path@ == s[a].path@ && s2[b].path@ == s[b].path@);
                }
            }
            assert forall|j: int| 0 <= j < s2.len() implies m2.contains_key(
                #[trigger] s2[j].path@,
            ) && m2[s2[j].path@] == s2[j].node@ by {
                if j != i {
                    lemma_at(s, j);
                }
            }
            assert forall|k: PathModel| m2.contains_key(k) implies has_key(s2, k) by {
                if k == key {
                    assert(s2[i as int].path@ == k);
                } else {
                    let j = lemma_key_entry(s, k);
                    assert(s2[j] == s[j]);
                }
            }
            lemma_map_eq(s2, m2);
        }
        node
    }

    /// Gives the node at `p` other permission bits.
    pub fn set_mode(&mut self, p: &AbsPath, mode: u32)
        requires
            old(self).wf(),
            old(self)@.contains_key(p@),
        ensures
            final(self).wf(),
            final(self)@ == old(self)@.insert(p@, with_mode(old(self)@[p@], mode)),
    {
        let i = match self.find(p) {
            Some(i) => i,
            None => {
                assert(false);
                return ;
            },
        };
        let placeholder = Node::Dir(crate::node::Dir { mode: 0 });
        let node = self.replace_at(i, placeholder);
        self.replace_at(i, node.with_mode(mode));
        assert(self@ =~= old(self)@.insert(p@, with_mode(old(self)@[p@], mode)));
    }

    /// Gives the file at `p` new contents, keeping its permission bits.
    pub fn set_contents(&mut self, p: &AbsPath, contents: Vec<u8>)
        requires
            old(self).wf(),
            old(self)@.contains_key(p@),
        ensures
            final(self).wf(),
            final(self)@ == old(self)@.insert(
                p@,
                NodeView::File { contents: contents@, mode: mode_of(old(self)@[p@]) },
            ),
    {
        let i = match self.find(p) {
            Some(i) => i,
            None => {
                assert(false);
                return ;
            },
        };
        let placeholder = Node::Dir(crate::node::Dir { mode: 0 });
        let node = self.replace_at(i, placeholder);
        let mode = node.mode();
        self.replace_at(i, Node::File(crate::node::File { contents, mode }));
        assert(self@ =~= old(self)@.insert(
            p@,
            NodeView::File { contents: contents@, mode: mode_of(old(self)@[p@]) },
        ));
    }

    /// The paths one level below `p`, each once.
    pub fn children(&self, p: &AbsPath) -> (r: Vec<AbsPath>)
        requires
            self.wf(),
        ensures
            forall|k: PathModel|
                child_paths(self@, p@).contains(k) <==> exists|i: int|
                    0 <= i < r@.len() && #[trigger] r@[i]@ == k,
            forall|a: int, b: int|
                0 <= a < r@.len() && 0 <= b < r@.len() && a != b ==> #[trigger] r@[a]@
                    != #[trigger] r@[b]@,
    {
        let ghost s = self.entries@;
        let mut r: Vec<AbsPath> = Vec::new();
        let ghost mut idx: Seq<int> = Seq::empty();
        let mut i: usize = 0;
        while i < self.entries.len()
            invariant
                s == self.entries@,
                unique_keys(s),
                0 <= i <= s.len(),
                idx.len() == r@.len(),
                forall|a: int| 0 <= a < idx.len() ==> 0 <= #[trigger] idx[a] < i,
                forall|a: int, b: int| 0 <= a < b < idx.len() ==> idx[a] < idx[b],
                forall|a: int| 0 <= a < idx.len() ==> (#[trigger] r@[a])@ == s[idx[a]].path@,
                forall|a: int|
                    0 <= a < idx.len() ==> child_paths(self@, p@).contains(#[trigger] r@[a]@),
                forall|j: int|
                    0 <= j < i && child_paths(self@, p@).contains(#[trigger] s[j].path@)
                        ==> exists|a: int| 0 <= a < idx.len() && idx[a] == j,
            decreases s.len() - i,
        {
            let e = &self.entries[i];
            let ghost idx0 = idx;
            proof {
                lemma_at(s, i as int);
            }
            if e.path.len() > p.len() && e.path.len() - p.len() == 1 && p.is_prefix_of(&e.path) {
                proof {
                    assert(e.path@.drop_last() =~= e.path@.subrange(0, p@.len() as int));
                }
                r.push(e.path.copy());
                proof {
                    idx = idx.push(i as int);
                }
            } else {
                proof {
                    if child_paths(self@, p@).contains(e.path@) {
                        assert(e.path@.subrange(0, p@.len() as int) =~= e.path@.drop_last());
                    }
                }
            }
            i = i + 1;
            proof {
                assert forall|j: int|
                    0 <= j < i && child_paths(self@, p@).contains(#[trigger] s[j].path@) implies exists|a: int|
                    0 <= a < idx.len() && idx[a] == j by {
                    if j == i - 1 {
                        assert(idx[idx.len() - 1] == j);
                    } else {
                        let a = choose|a: int| 0 <= a < idx0.len() && idx0[a] == j;
                        assert(idx[a] == idx0[a]);
                    }
                }
            }
        }
        proof {
            assert forall|k: PathModel| child_paths(self@, p@).contains(k) implies exists|a: int|
                0 <= a < r@.len() && #[trigger] r@[a]@ == k by {
                let j = lemma_key_entry(s, k);
                let a = choose|a: int| 0 <= a < idx.len() && idx[a] == j;
                assert(r@[a]@ == k);
            }
            assert forall|a: int, b: int|
                0 <= a < r@.len() && 0 <= b < r@.len() && a != b implies #[trigger] r@[a]@
                != #[trigger] r@[b]@ by {
                if a < b {
                    assert(idx[a] < idx[b]);
                } else {
                    assert(idx[b] < idx[a]);
                }
                assert(s[idx[a]].path@ != s[idx[b]].path@);
            }
        }
        r
    }

    /// Whether any path lies strictly below `p`.
    pub fn any_below(&self, p: &AbsPath) -> (r: bool)
        requires
            self.wf(),
        ensures
            r == has_below(self@, p@),
    {
        let ghost s = self.entries@;
        let mut i: usize = 0;
        while i < self.entries.len()
            invariant
                s == self.entries@,
                unique_keys(s),
                0 <= i <= s.len(),
                forall|j: int| 0 <= j < i ==> !is_strict_prefix(p@, #[trigger] s[j].path@),
            decreases s.len() - i,
        {
            let e = &self.entries[i];
            if e.path.len() > p.len() && p.is_prefix_of(&e.path) {
                proof {
                    lemma_at(s, i as int);
                    assert(e.path@ == s[i as int].path@);
                    assert(self@.contains_key(e.path@) && is_strict_prefix(p@, e.path@));
                }
                return true;
            }
            i = i + 1;
        }
        proof {
            if has_below(self@, p@) {
                let k = choose|k: PathModel| self@.contains_key(k) && is_strict_prefix(p@, k);
                let j = lemma_key_entry(s, k);
            }
        }
        false
    }

    /// Whether every path strictly below `p` has a read bit set.
    pub fn readable_below(&self, p: &AbsPath) -> (r: bool)
        requires
            self.wf(),
        ensures
            r == all_below_readable(self@, p@),
    {
        let ghost s = self.entries@;
        let mut i: usize = 0;
        while i < self.entries.len()
            invariant
                s == self.entries@,
                unique_keys(s),
                0 <= i <= s.len(),
                forall|j: int|
                    0 <= j < i && is_strict_prefix(p@, #[trigger] s[j].path@) ==> readable(
                        mode_of(s[j].node@),
                    ),
            decreases s.len() - i,
        {
            let e = &self.entries[i];
            if e.path.len() > p.len() && p.is_prefix_of(&e.path) {
                if e.node.mode() & crate::node::READ_BITS == 0 {
                    proof {
                        lemma_at(s, i as int);
                        assert(e.path@ == s[i as int].path@);
                        assert(e.node@ == s[i as int].node@);
                        assert(self@.contains_key(e.path@) && is_strict_prefix(p@, e.path@));
                        assert(!readable(mode_of(self@[e.path@])));
                    }
                    return false;
                }
            }
            i = i + 1;
        }
        proof {
            assert forall|k: PathModel|
                self@.contains_key(k) && is_strict_prefix(p@, k) implies readable(
                mode_of(self@[k]),
            ) by {
                let j = lemma_key_entry(s, k);
                lemma_at(s, j);
            }
        }
        true
    }

    /// Drops `p` and every row below it.
    pub fn remove_subtree(&mut self, p: &AbsPath)
        requires
            old(self).wf(),
        ensures
            final(self).wf(),
            final(self)@ == without_subtree(old(self)@, p@),
    {
        let ghost s = self.entries@;
        let ghost m = self@;
        let mut kept: Vec<Entry> = Vec::new();
        let ghost mut idx: Seq<int> = Seq::empty();
        while self.entries.len() > 0
            invariant
                unique_keys(s),
                m == table_map(s),
                self.entries@.len() <= s.len(),
                self.entries@ == s.subrange(0, self.entries@.len() as int),
                idx.len() == kept@.len(),
                forall|a: int|
                    0 <= a < idx.len() ==> self.entries@.len() <= #[trigger] idx[a] < s.len(),
                forall|a: int, b: int| 0 <= a < b < idx.len() ==> idx[a] > idx[b],
                forall|a: int| 0 <= a < idx.len() ==> #[trigger] kept@[a] == s[idx[a]],
                forall|a: int| 0 <= a < idx.len() ==> !is_prefix(p@, (#[trigger] kept@[a]).path@),
                forall|j: int|
                    self.entries@.len() <= j < s.len() && !is_prefix(p@, #[trigger] s[j].path@)
                        ==> exists|a: int| 0 <= a < idx.len() && idx[a] == j,
            decreases self.entries@.len(),
        {
            let ghost n = self.entries@.len();
            let e = self.entries.pop().unwrap();
            assert(e == s[n - 1]);
            let ghost idx0 = idx;
            if !p.is_prefix_of(&e.path) {
                kept.push(e);
                proof {
                    idx = idx.push(n - 1);
                }
            }
            proof {
                assert(self.entries@ =~= s.subrange(0, n - 1));
                assert forall|j: int|
                    self.entries@.len() <= j < s.len() && !is_prefix(p@, #[trigger] s[j].path@) implies exists|a: int|
                    0 <= a < idx.len() && idx[a] == j by {
                    if j == n - 1 {
                        assert(idx[idx.len() - 1] == j);
                    } else {
                        let a = choose|a: int| 0 <= a < idx0.len() && idx0[a] == j;
                        assert(idx[a] == idx0[a]);
                    }
                }
            }
        }
        proof {
            let m2 = without_subtree(m, p@);
            let s2 = kept@;
            assert(unique_keys(s2)) by {
                assert forall|a: int, b: int|
                    0 <= a < s2.len() && 0 <= b < s2.len() && a != b implies #[trigger] s2[a].path@
                    != #[trigger] s2[b].path@ by {
                    if a < b {
                        assert(idx[a] > idx[b]);
                    } else {
                        assert(idx[b] > idx[a]);
                    }
                    assert(s2[a] == s[idx[a]] && s2[b] == s[idx[b]]);
                }
            }
            assert forall|a: int| 0 <= a < s2.len() implies m2.contains_key(
                #[trigger] s2[a].path@,
            ) && m2[s2[a].path@] == s2[a].node@ by {
                assert(s2[a] == s[idx[a]]);
                lemma_at(s, idx[a]);
            }
            assert forall|k: PathModel| m2.contains_key(k) implies has_key(s2, k) by {
                let j = lemma_key_entry(s, k);
                let a = choose|a: int| 0 <= a < idx.len() && idx[a] == j;
                assert(s2[a] == s[j]);
            }
            lemma_map_eq(s2, m2);
        }
        self.entries = kept;
    }

    /// Moves `from` and every row below it under the name `to`, below which
    /// nothing lies yet.
    pub fn move_subtree(&mut self, from: &AbsPath, to: &AbsPath)
        requires
            old(self).wf(),
            forall|k: PathModel| old(self)@.contains_key(k) ==> !is_prefix(to@, k),
        ensures
            final(self).wf(),
            final(self)@ == moved(old(self)@, from@, to@),
    {
        let ghost s = self.entries@;
        let ghost m = self@;
        let ghost f = from@;
        let ghost t = to@;
        proof {
            assert forall|j: int| 0 <= j < s.len() implies !is_prefix(t, #[trigger] s[j].path@) by {
                lemma_at(s, j);
            }
        }
        let mut kept: Vec<Entry> = Vec::new();
        let ghost mut idx: Seq<int> = Seq::empty();
        while self.entries.len() > 0
            invariant
                unique_keys(s),
                m == table_map(s),
                f == from@,
                t == to@,
                forall|j: int| 0 <= j < s.len() ==> !is_prefix(t, #[trigger] s[j].path@),
                self.entries@.len() <= s.len(),
                self.entries@ == s.subrange(0, self.entries@.len() as int),
                idx.len() == kept@.len(),
                forall|a: int|
                    0 <= a < idx.len() ==> self.entries@.len() <= #[trigger] idx[a] < s.len(),
                forall|a: int, b: int| 0 <= a < b < idx.len() ==> idx[a] > idx[b],
                forall|a: int|
                    0 <= a < idx.len() ==> (#[trigger] kept@[a]).path@ == relocate(
                        s[idx[a]].path@,
                        f,
                        t,
                    ) && kept@[a].node == s[idx[a]].node,
                forall|a: int|
                    0 <= a < idx.len() ==> idx[a] == s.len() - 1 - a,
                kept@.len() + self.entries@.len() == s.len(),
            decreases self.entries@.len(),
        {
            let ghost n = self.entries@.len();
            let e = self.entries.pop().unwrap();
            assert(e == s[n - 1]);
            let Entry { path, node } = e;
            if from.is_prefix_of(&path) {
                let np = path.rebase(from.len(), to);
                kept.push(Entry { path: np, node });
            } else {
                kept.push(Entry { path, node });
            }
            proof {
                idx = idx.push(n - 1);
                assert(self.entries@ =~= s.subrange(0, n - 1));
            }
        }
        proof {
            let m2 = moved(m, f, t);
            let s2 = kept@;
            assert(s2.len() == s.len());
            assert(unique_keys(s2)) by {
                assert forall|a: int, b: int|
                    0 <= a < s2.len() && 0 <= b < s2.len() && a != b implies #[trigger] s2[a].path@
                    != #[trigger] s2[b].path@ by {
                    let ka = s[idx[a]].path@;
                    let kb = s[idx[b]].path@;
                    assert(ka != kb);
                    if is_prefix(f, ka) && is_prefix(f, kb) {
                        lemma_concat_skip(t, ka.skip(f.len() as int));
                        lemma_concat_skip(t, kb.skip(f.len() as int));
                        lemma_prefix_split(f, ka);
                        lemma_prefix_split(f, kb);
                    } else if is_prefix(f, ka) {
                        lemma_concat_skip(t, ka.skip(f.len() as int));
                    } else if is_prefix(f, kb) {
                        lemma_concat_skip(t, kb.skip(f.len() as int));
                    }
                }
            }
            assert forall|a: int| 0 <= a < s2.len() implies m2.contains_key(
                #[trigger] s2[a].path@,
            ) && m2[s2[a].path@] == s2[a].node@ by {
                let j = idx[a];
                let k0 = s[j].path@;
                lemma_at(s, j);
                if is_prefix(f, k0) {
                    lemma_concat_skip(t, k0.skip(f.len() as int));
                    lemma_prefix_split(f, k0);
                    assert(s2[a].path@.skip(t.len() as int) == k0.skip(f.len() as int));
                }
            }
            assert forall|k: PathModel| m2.contains_key(k) implies has_key(s2, k) by {
                if m.contains_key(k) && !is_prefix(f, k) {
                    let j = lemma_key_entry(s, k);
                    let a = s.len() - 1 - j;
                    assert(idx[a] == j);
                    assert(s2[a].path@ == k);
                } else {
                    let k0 = f + k.skip(t.len() as int);
                    let j = lemma_key_entry(s, k0);
                    let a = s.len() - 1 - j;
                    assert(idx[a] == j);
                    lemma_concat_skip(f, k.skip(t.len() as int));
                    lemma_prefix_split(t, k);
                    assert(s2[a].path@ == k);
                }
            }
            lemma_map_eq(s2, m2);
        }
        self.entries = kept;
    }
}

} // verus!
