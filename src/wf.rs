//! Why every operation keeps the table well formed.

use vstd::prelude::*;

use crate::model::{fs_wf, FsMap};
use crate::node::NodeView;
use crate::path::{is_prefix, is_strict_prefix, PathModel};
use crate::table::{has_below, moved, without_subtree};

verus! {

/// Everything above an entry is a directory in the table.
pub proof fn lemma_ancestor(m: FsMap, k: PathModel, a: PathModel)
    requires
        fs_wf(m),
        m.contains_key(k),
        is_strict_prefix(a, k),
    ensures
        m.contains_key(a),
        m[a] is Dir,
    decreases k.len(),
{
    let p = k.drop_last();
    assert(m.contains_key(p));
    if p.len() == a.len() {
        assert(p =~= a) by {
            assert(p =~= k.subrange(0, a.len() as int));
        }
    } else {
        assert(is_strict_prefix(a, p)) by {
            assert(p.subrange(0, a.len() as int) =~= k.subrange(0, a.len() as int));
        }
        lemma_ancestor(m, p, a);
    }
}

/// Nothing lies below an entry that is not a directory, nor below an absent path.
pub proof fn lemma_nothing_below(m: FsMap, a: PathModel)
    requires
        fs_wf(m),
        !m.contains_key(a) || !(m[a] is Dir),
    ensures
        !has_below(m, a),
        forall|k: PathModel| m.contains_key(k) && k != a ==> !is_prefix(a, k),
{
    assert forall|k: PathModel| m.contains_key(k) && is_prefix(a, k) implies k == a by {
        if k.len() > a.len() {
            lemma_ancestor(m, k, a);
        } else {
            assert(k =~= k.subrange(0, a.len() as int));
        }
    }
    if has_below(m, a) {
        let k = choose|k: PathModel| m.contains_key(k) && is_strict_prefix(a, k);
        lemma_ancestor(m, k, a);
    }
}

pub proof fn lemma_insert_wf(m: FsMap, q: PathModel, n: NodeView)
    requires
        fs_wf(m),
        q.len() > 0,
        !m.contains_key(q),
        m.contains_key(q.drop_last()),
        m[q.drop_last()] is Dir,
    ensures
        fs_wf(m.insert(q, n)),
{
    let m2 = m.insert(q, n);
    assert(m2.dom() =~= m.dom().insert(q));
    assert forall|k: PathModel| m2.contains_key(k) && k.len() > 0 implies m2.contains_key(
        k.drop_last(),
    ) && m2[k.drop_last()] is Dir by {
        if k != q {
            assert(k.drop_last() != q);
        }
    }
}

pub proof fn lemma_replace_wf(m: FsMap, q: PathModel, n: NodeView)
    requires
        fs_wf(m),
        m.contains_key(q),
        (m[q] is Dir) == (n is Dir),
    ensures
        fs_wf(m.insert(q, n)),
{
    let m2 = m.insert(q, n);
    assert(m2.dom() =~= m.dom());
}

pub proof fn lemma_remove_wf(m: FsMap, q: PathModel)
    requires
        fs_wf(m),
        q.len() > 0,
        !has_below(m, q),
    ensures
        fs_wf(m.remove(q)),
{
    let m2 = m.remove(q);
    assert(m2.dom() =~= m.dom().remove(q));
    assert forall|k: PathModel| m2.contains_key(k) && k.len() > 0 implies m2.contains_key(
        k.drop_last(),
    ) && m2[k.drop_last()] is Dir by {
        if k.drop_last() == q {
            assert(k.subrange(0, q.len() as int) =~= k.drop_last());
            assert(m.contains_key(k) && is_strict_prefix(q, k));
        }
    }
}

pub proof fn lemma_without_subtree_wf(m: FsMap, q: PathModel)
    requires
        fs_wf(m),
        q.len() > 0,
    ensures
        fs_wf(without_subtree(m, q)),
{
    let m2 = without_subtree(m, q);
    assert(m2.dom() =~= m.dom().filter(|k: PathModel| !is_prefix(q, k)));
    assert(!is_prefix(q, Seq::<Seq<char>>::empty()));
    assert forall|k: PathModel| m2.contains_key(k) && k.len() > 0 implies m2.contains_key(
        k.drop_last(),
    ) && m2[k.drop_last()] is Dir by {
        let p = k.drop_last();
        if is_prefix(q, p) {
            assert(k.subrange(0, q.len() as int) =~= p.subrange(0, q.len() as int));
        }
    }
}

proof fn lemma_prefix_parent(a: PathModel, k: PathModel)
    requires
        k.len() > 0,
        is_prefix(a, k.drop_last()),
    ensures
        is_prefix(a, k),
{
    assert(k.subrange(0, a.len() as int) =~= k.drop_last().subrange(0, a.len() as int));
}

/// Moving the subtree at `f` onto `t` (after dropping what was at `t`) leaves
/// nothing below `t` to collide with, and keeps the table well formed.
pub proof fn lemma_moved_wf(m: FsMap, f: PathModel, t: PathModel)
    requires
        fs_wf(m),
        m.contains_key(f),
        !is_prefix(f, t),
        t.len() > 0,
        m.contains_key(t.drop_last()),
        m[t.drop_last()] is Dir,
        m.contains_key(t) ==> !has_below(m, t),
    ensures
        forall|k: PathModel| m.remove(t).contains_key(k) ==> !is_prefix(t, k),
        fs_wf(moved(m.remove(t), f, t)),
{
    let m1 = m.remove(t);
    let mm = moved(m1, f, t);
    assert forall|k: PathModel| m1.contains_key(k) implies !is_prefix(t, k) by {
        if is_prefix(t, k) {
            if k.len() == t.len() {
                assert(k =~= k.subrange(0, t.len() as int));
            } else {
                lemma_ancestor(m, k, t);
                assert(is_strict_prefix(t, k));
            }
        }
    }
    if f.len() == 0 {
        assert(t.subrange(0, 0) =~= f);
    }
    // finite
    let reloc = |k: PathModel| crate::table::relocate(k, f, t);
    assert(m1.dom().finite());
    m1.dom().lemma_map_finite(reloc);
    assert forall|k: PathModel| mm.dom().contains(k) implies m1.dom().map(reloc).contains(k) by {
        if m1.contains_key(k) && !is_prefix(f, k) {
            assert(reloc(k) == k);
        } else {
            let k0 = f + k.skip(t.len() as int);
            assert(k0.skip(f.len() as int) =~= k.skip(t.len() as int));
            assert(k0.subrange(0, f.len() as int) =~= f);
            assert(t + k.skip(t.len() as int) =~= k);
            assert(reloc(k0) == k);
        }
    }
    vstd::set_lib::lemma_set_subset_finite(m1.dom().map(reloc), mm.dom());
    // root
    let root = Seq::<Seq<char>>::empty();
    assert(!is_prefix(f, root));
    assert(!is_prefix(t, root));
    assert(mm.contains_key(root));
    // parents
    assert forall|k: PathModel| mm.contains_key(k) && k.len() > 0 implies mm.contains_key(
        k.drop_last(),
    ) && mm[k.drop_last()] is Dir by {
        let pk = k.drop_last();
        if is_prefix(t, k) && m1.contains_key(f + k.skip(t.len() as int)) {
            let k0 = f + k.skip(t.len() as int);
            if k.len() == t.len() {
                assert(k =~= t) by {
                    assert(k =~= k.subrange(0, t.len() as int));
                }
                if is_prefix(f, pk) {
                    lemma_prefix_parent(f, t);
                }
                assert(!is_prefix(t, pk));
            } else {
                assert(k0.len() > 0);
                assert(k0.drop_last() =~= f + pk.skip(t.len() as int));
                assert(is_prefix(t, pk)) by {
                    assert(pk.subrange(0, t.len() as int) =~= k.subrange(0, t.len() as int));
                }
                assert(m.contains_key(k0.drop_last()));
                assert(k0.drop_last().subrange(0, f.len() as int) =~= f);
                assert(k0.drop_last() != t);
            }
        } else {
            assert(m1.contains_key(k) && !is_prefix(f, k));
            assert(!is_prefix(t, k));
            if pk == t {
                assert(k.subrange(0, t.len() as int) =~= pk);
            }
            if is_prefix(f, pk) {
                lemma_prefix_parent(f, k);
            }
            if is_prefix(t, pk) {
                lemma_prefix_parent(t, k);
            }
            assert(m1.contains_key(pk));
        }
    }
}

} // verus!
