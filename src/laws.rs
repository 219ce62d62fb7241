//! Properties that relate several operations, proved over the model.

use vstd::prelude::*;

use crate::error::ErrorKind;
use crate::model::{
    create_dir_all_outcome, create_dir_outcome, create_file_outcome, dir_target, follow, fs_wf,
    is_dir_at, is_file_at, link, new_dir, new_file, res,
    read_dir_result, read_file_result, read_link_result, remove_dir_outcome, remove_file_outcome,
    rename_outcome,
    resolve, set_readonly_outcome, symlink_outcome, walk, write_file_outcome, FsMap,
};
use crate::node::{mode_of, readable, writable, NodeView};
use crate::path::{has_special, is_special, is_strict_prefix, target_of, PathModel};
use crate::table::{child_paths, has_below};
use crate::tempdir::temp_path;
use crate::wf::{lemma_ancestor, lemma_insert_wf, lemma_nothing_below, lemma_remove_wf};

verus! {

/// The setting of the insertion lemmas: `q` is a new path whose parent is
/// a directory of a well-formed table.
pub open spec fn fresh_slot(m: FsMap, q: PathModel) -> bool {
    &&& fs_wf(m)
    &&& !m.contains_key(q)
    &&& q.len() > 0
    &&& m.contains_key(q.drop_last())
    &&& m[q.drop_last()] is Dir
}

/// A path whose every proper prefix is a directory walks to itself.
proof fn lemma_walk_dirs(
    m: FsMap,
    p: PathModel,
    fl: bool,
    v: Set<PathModel>,
    n: nat,
    i: nat,
)
    requires
        fresh_slot(m, p),
        i <= p.len(),
    ensures
        walk(m, p, fl, v, n, i, p.subrange(0, i as int)) == Ok::<PathModel, ErrorKind>(p),
    decreases p.len() - i,
{
    if i == p.len() {
        assert(p.subrange(0, i as int) =~= p);
    } else {
        let a = p.subrange(0, i as int).push(p[i as int]);
        assert(a =~= p.subrange(0, i as int + 1));
        if i + 1 < p.len() {
            let par = p.drop_last();
            if a.len() < par.len() {
                assert(is_strict_prefix(a, par)) by {
                    assert(par.subrange(0, a.len() as int) =~= a);
                }
                lemma_ancestor(m, par, a);
            } else {
                assert(a =~= par);
            }
            lemma_walk_dirs(m, p, fl, v, n, i + 1);
        } else {
            assert(a =~= p);
        }
    }
}

proof fn lemma_link_insert(
    m: FsMap,
    k: PathModel,
    v: Set<PathModel>,
    n: nat,
    n2: nat,
    q: PathModel,
    val: NodeView,
)
    requires
        fresh_slot(m, q),
        m.contains_key(k),
        link(m, k, v, n) is Ok,
        n2 >= n,
    ensures
        link(m.insert(q, val), k, v, n2) == link(m, k, v, n),
    decreases n, 0nat, 0nat,
{
    let m2 = m.insert(q, val);
    if m[k] is Symlink {
        let t = target_of(m[k]->source)->0;
        lemma_res_insert(m, t, true, v.insert(k), (n - 1) as nat, (n2 - 1) as nat, q, val);
    }
}

proof fn lemma_res_insert(
    m: FsMap,
    p: PathModel,
    fl: bool,
    v: Set<PathModel>,
    n: nat,
    n2: nat,
    q: PathModel,
    val: NodeView,
)
    requires
        fresh_slot(m, q),
        res(m, p, fl, v, n) is Ok,
        m.contains_key(res(m, p, fl, v, n)->Ok_0) || (res(m, p, fl, v, n)->Ok_0 == q && !(fl
            && val is Symlink)),
        n2 >= n,
    ensures
        res(m.insert(q, val), p, fl, v, n2) == res(m, p, fl, v, n),
    decreases n, 2nat, 0nat,
{
    if m.contains_key(p) {
        if m[p] is Symlink && fl {
            lemma_link_insert(m, p, v, n, n2, q, val);
        }
    } else if p == q {
        lemma_walk_dirs(m, p, fl, v, n, 0);
        assert(p.subrange(0, 0) =~= Seq::<Seq<char>>::empty());
    } else {
        lemma_walk_insert(m, p, fl, v, n, n2, 0, Seq::empty(), q, val);
    }
}

proof fn lemma_walk_insert(
    m: FsMap,
    p: PathModel,
    fl: bool,
    v: Set<PathModel>,
    n: nat,
    n2: nat,
    i: nat,
    acc: PathModel,
    q: PathModel,
    val: NodeView,
)
    requires
        fresh_slot(m, q),
        walk(m, p, fl, v, n, i, acc) is Ok,
        m.contains_key(walk(m, p, fl, v, n, i, acc)->Ok_0) || (walk(m, p, fl, v, n, i, acc)->Ok_0
            == q && !(fl && val is Symlink)),
        n2 >= n,
    ensures
        walk(m.insert(q, val), p, fl, v, n2, i, acc) == walk(m, p, fl, v, n, i, acc),
    decreases n, 1nat, p.len() - i,
{
    let m2 = m.insert(q, val);
    if i < p.len() {
        let a = acc.push(p[i as int]);
        if !m.contains_key(a) {
            assert(a == q);
            assert(walk(m2, p, fl, v, n2, i + 1, a) == Ok::<PathModel, ErrorKind>(a));
        } else if m[a] is Symlink {
            if !(i + 1 == p.len() && !fl) {
                lemma_link_insert(m, a, v, n, n2, q, val);
                lemma_walk_insert(m, p, fl, v, n, n2, i + 1, link(m, a, v, n)->Ok_0, q, val);
            }
        } else {
            lemma_walk_insert(m, p, fl, v, n, n2, i + 1, a, q, val);
        }
    }
}

/// Resolution finds a newly added entry where it found the empty spot.
proof fn lemma_resolve_insert(m: FsMap, p: PathModel, fl: bool, q: PathModel, val: NodeView)
    requires
        fresh_slot(m, q),
        resolve(m, p, fl) == Ok::<PathModel, ErrorKind>(q),
        !(fl && val is Symlink),
    ensures
        resolve(m.insert(q, val), p, fl) == Ok::<PathModel, ErrorKind>(q),
{
    let m2 = m.insert(q, val);
    assert(m2.dom() =~= m.dom().insert(q));
    lemma_res_insert(m, p, fl, Set::empty(), m.dom().len(), m2.dom().len(), q, val);
}

proof fn lemma_link_replace(m: FsMap, k: PathModel, v: Set<PathModel>, n: nat, r: PathModel, val: NodeView)
    requires
        m.contains_key(r),
        !(m[r] is Symlink),
        !(val is Symlink),
    ensures
        link(m.insert(r, val), k, v, n) == link(m, k, v, n),
    decreases n, 0nat, 0nat,
{
    let m2 = m.insert(r, val);
    assert(m2.dom() =~= m.dom());
    if !v.contains(k) && n > 0 && m[k] is Symlink {
        let t = target_of(m[k]->source);
        if t is Some {
            lemma_res_replace(m, t->0, true, v.insert(k), (n - 1) as nat, r, val);
        }
    }
}

proof fn lemma_res_replace(
    m: FsMap,
    p: PathModel,
    fl: bool,
    v: Set<PathModel>,
    n: nat,
    r: PathModel,
    val: NodeView,
)
    requires
        m.contains_key(r),
        !(m[r] is Symlink),
        !(val is Symlink),
    ensures
        res(m.insert(r, val), p, fl, v, n) == res(m, p, fl, v, n),
    decreases n, 2nat, 0nat,
{
    let m2 = m.insert(r, val);
    assert(m2.dom() =~= m.dom());
    lemma_link_replace(m, p, v, n, r, val);
    lemma_walk_replace(m, p, fl, v, n, 0, Seq::empty(), r, val);
}

proof fn lemma_walk_replace(
    m: FsMap,
    p: PathModel,
    fl: bool,
    v: Set<PathModel>,
    n: nat,
    i: nat,
    acc: PathModel,
    r: PathModel,
    val: NodeView,
)
    requires
        m.contains_key(r),
        !(m[r] is Symlink),
        !(val is Symlink),
    ensures
        walk(m.insert(r, val), p, fl, v, n, i, acc) == walk(m, p, fl, v, n, i, acc),
    decreases n, 1nat, p.len() - i,
{
    let m2 = m.insert(r, val);
    assert(m2.dom() =~= m.dom());
    if i < p.len() {
        let a = acc.push(p[i as int]);
        if m.contains_key(a) && m[a] is Symlink {
            lemma_link_replace(m, a, v, n, r, val);
            match link(m, a, v, n) {
                Ok(a2) => lemma_walk_replace(m, p, fl, v, n, i + 1, a2, r, val),
                Err(_) => {},
            }
        } else {
            lemma_walk_replace(m, p, fl, v, n, i + 1, a, r, val);
        }
    }
}

proof fn lemma_resolve_replace(m: FsMap, p: PathModel, fl: bool, r: PathModel, val: NodeView)
    requires
        m.contains_key(r),
        !(m[r] is Symlink),
        !(val is Symlink),
    ensures
        resolve(m.insert(r, val), p, fl) == resolve(m, p, fl),
{
    let m2 = m.insert(r, val);
    assert(m2.dom() =~= m.dom());
    lemma_res_replace(m, p, fl, Set::empty(), m.dom().len(), r, val);
}

proof fn lemma_default_mode()
    ensures
        readable(0o644),
        writable(0o644),
{
    assert(0o644u32 & 0o444u32 != 0) by (bit_vector);
    assert(0o644u32 & 0o222u32 != 0) by (bit_vector);
}

/// A file just created reads back exactly the bytes it was created with.
pub proof fn lemma_create_then_read(m: FsMap, p: PathModel, bytes: Seq<u8>)
    requires
        fs_wf(m),
        create_file_outcome(m, p, bytes) is Ok,
    ensures
        read_file_result(create_file_outcome(m, p, bytes)->Ok_0, p) == Ok::<Seq<u8>, ErrorKind>(bytes),
{
    let q = resolve(m, p, true)->Ok_0;
    lemma_resolve_insert(m, p, true, q, new_file(bytes));
    lemma_default_mode();
}

/// Writing the same bytes a second time changes nothing, and reading gives
/// those bytes, not two copies of them (or `PermissionDenied` for a file
/// without read bits).
pub proof fn lemma_write_twice(m: FsMap, p: PathModel, bytes: Seq<u8>)
    requires
        fs_wf(m),
        write_file_outcome(m, p, bytes) is Ok,
    ensures
        write_file_outcome(write_file_outcome(m, p, bytes)->Ok_0, p, bytes) == write_file_outcome(m, p, bytes),
        match read_file_result(write_file_outcome(m, p, bytes)->Ok_0, p) {
            Ok(c) => c == bytes,
            Err(e) => e == ErrorKind::PermissionDenied,
        },
{
    let q = resolve(m, p, true)->Ok_0;
    let m2 = write_file_outcome(m, p, bytes)->Ok_0;
    lemma_default_mode();
    if !m.contains_key(q) {
        lemma_resolve_insert(m, p, true, q, new_file(bytes));
    } else {
        let mode = mode_of(m[q]);
        lemma_resolve_replace(m, p, true, q, NodeView::File { contents: bytes, mode });
    }
    assert(m2.insert(q, m2[q]) =~= m2);
}

/// A directory other than the root can be removed exactly when listing it
/// gives nothing; otherwise removal fails as not empty.
pub proof fn lemma_remove_dir_iff_empty(m: FsMap, d: PathModel)
    requires
        fs_wf(m),
        !has_special(d),
        m.contains_key(d),
        m[d] is Dir,
        d.len() > 0,
    ensures
        remove_dir_outcome(m, d) is Ok <==> read_dir_result(m, d) == Ok::<Set<PathModel>, ErrorKind>(Set::empty()),
        remove_dir_outcome(m, d) is Err ==> remove_dir_outcome(m, d) == Err::<FsMap, ErrorKind>(ErrorKind::DirectoryNotEmpty),
{
    assert(dir_target(m, d) == Ok::<PathModel, ErrorKind>(d));
    if has_below(m, d) {
        let k = choose|k: PathModel| m.contains_key(k) && is_strict_prefix(d, k);
        let c = k.subrange(0, d.len() as int + 1);
        if c.len() < k.len() {
            assert(c.subrange(0, d.len() as int) =~= k.subrange(0, d.len() as int));
            assert(is_strict_prefix(c, k)) by {
                assert(k.subrange(0, c.len() as int) =~= c);
            }
            lemma_ancestor(m, k, c);
        } else {
            assert(c =~= k);
        }
        assert(c.drop_last() =~= d) by {
            assert(c.drop_last() =~= k.subrange(0, d.len() as int));
        }
        assert(child_paths(m, d).contains(c));
    } else {
        assert forall|k: PathModel| !child_paths(m, d).contains(k) by {
            if child_paths(m, d).contains(k) {
                assert(k.subrange(0, d.len() as int) =~= k.drop_last());
                assert(is_strict_prefix(d, k));
            }
        }
        assert(child_paths(m, d) =~= Set::empty());
    }
}

/// The map of a fresh file system: the root directory alone.
pub open spec fn fresh() -> FsMap {
    Map::<PathModel, NodeView>::empty().insert(Seq::empty(), new_dir())
}

/// On a fresh file system, `create_dir_all` of `/a/b/c` makes all three
/// directories, and a second call succeeds without changing anything.
pub proof fn lemma_create_dir_all_fresh(a: Seq<char>, b: Seq<char>, c: Seq<char>)
    requires
        !is_special(a),
        !is_special(b),
        !is_special(c),
    ensures
        ({
            let (r, m3) = create_dir_all_outcome(fresh(), seq![a, b, c]);
            &&& r is Ok
            &&& is_dir_at(m3, seq![a])
            &&& is_dir_at(m3, seq![a, b])
            &&& is_dir_at(m3, seq![a, b, c])
            &&& create_dir_all_outcome(m3, seq![a, b, c]) == (Ok::<(), ErrorKind>(()), m3)
        }),
{
    lemma_default_mode();
    let root = Seq::<Seq<char>>::empty();
    let pa = seq![a];
    let pab = seq![a, b];
    let pabc = seq![a, b, c];
    let m0 = fresh();
    assert(!has_special(pa) && !has_special(pab) && !has_special(pabc)) by {
        assert(forall|i: int| 0 <= i < pabc.len() ==> !is_special(#[trigger] pabc[i]));
        assert(forall|i: int| 0 <= i < pab.len() ==> !is_special(#[trigger] pab[i]));
        assert(forall|i: int| 0 <= i < pa.len() ==> !is_special(#[trigger] pa[i]));
    }
    assert(pa.drop_last() =~= root);
    assert(pab.drop_last() =~= pa);
    assert(pabc.drop_last() =~= pab);
    assert(root.push(a) =~= pa);
    assert(pa.push(b) =~= pab);
    assert(pab.push(c) =~= pabc);
    assert(pa[0] == a && pab[0] == a && pab[1] == b && pabc[0] == a && pabc[1] == b && pabc[2] == c);
    // the three levels fail with NotFound, from the deepest up
    assert(!m0.contains_key(pa) && !m0.contains_key(pab) && !m0.contains_key(pabc)) by {
        assert(pa.len() != root.len());
        assert(pab.len() != root.len());
        assert(pabc.len() != root.len());
    }
    assert(walk(m0, pabc, false, Set::empty(), m0.dom().len(), 0, root) == Err::<PathModel, ErrorKind>(ErrorKind::NotFound));
    assert(create_dir_outcome(m0, pabc) == Err::<FsMap, ErrorKind>(ErrorKind::NotFound));
    assert(walk(m0, pab, false, Set::empty(), m0.dom().len(), 0, root) == Err::<PathModel, ErrorKind>(ErrorKind::NotFound));
    assert(create_dir_outcome(m0, pab) == Err::<FsMap, ErrorKind>(ErrorKind::NotFound));
    assert(walk(m0, pa, false, Set::empty(), m0.dom().len(), 1, pa) == Ok::<PathModel, ErrorKind>(pa));
    assert(walk(m0, pa, false, Set::empty(), m0.dom().len(), 0, root) == Ok::<PathModel, ErrorKind>(pa));
    let m1 = m0.insert(pa, new_dir());
    assert(create_dir_outcome(m0, pa) == Ok::<FsMap, ErrorKind>(m1));
    assert(create_dir_all_outcome(m0, root) == (Ok::<(), ErrorKind>(()), m0));
    assert(create_dir_all_outcome(m0, pa) == (Ok::<(), ErrorKind>(()), m1));
    // then /a/b on m1
    assert(!m1.contains_key(pab) && !m1.contains_key(pabc)) by {
        assert(pab.len() != pa.len() && pab.len() != root.len());
        assert(pabc.len() != pa.len() && pabc.len() != root.len());
    }
    assert(walk(m1, pab, false, Set::empty(), m1.dom().len(), 2, pab) == Ok::<PathModel, ErrorKind>(pab));
    assert(walk(m1, pab, false, Set::empty(), m1.dom().len(), 1, pa) == Ok::<PathModel, ErrorKind>(pab));
    assert(walk(m1, pab, false, Set::empty(), m1.dom().len(), 0, root) == Ok::<PathModel, ErrorKind>(pab));
    let m2 = m1.insert(pab, new_dir());
    assert(create_dir_outcome(m1, pab) == Ok::<FsMap, ErrorKind>(m2));
    assert(create_dir_all_outcome(m0, pab) == (Ok::<(), ErrorKind>(()), m2));
    // then /a/b/c on m2
    assert(!m2.contains_key(pabc)) by {
        assert(pabc.len() != pab.len() && pabc.len() != pa.len() && pabc.len() != root.len());
    }
    assert(walk(m2, pabc, false, Set::empty(), m2.dom().len(), 3, pabc) == Ok::<PathModel, ErrorKind>(pabc));
    assert(walk(m2, pabc, false, Set::empty(), m2.dom().len(), 2, pab) == Ok::<PathModel, ErrorKind>(pabc));
    assert(walk(m2, pabc, false, Set::empty(), m2.dom().len(), 1, pa) == Ok::<PathModel, ErrorKind>(pabc));
    assert(walk(m2, pabc, false, Set::empty(), m2.dom().len(), 0, root) == Ok::<PathModel, ErrorKind>(pabc));
    let m3 = m2.insert(pabc, new_dir());
    assert(create_dir_outcome(m2, pabc) == Ok::<FsMap, ErrorKind>(m3));
    assert(create_dir_all_outcome(m0, pabc) == (Ok::<(), ErrorKind>(()), m3));
    // each level is a directory of m3, and a second call finds it there
    assert(is_dir_at(m3, pa));
    assert(is_dir_at(m3, pab));
    assert(is_dir_at(m3, pabc));
    assert(create_dir_outcome(m3, pabc) == Err::<FsMap, ErrorKind>(ErrorKind::AlreadyExists));
}

/// With every write bit cleared a file cannot be written; with them set
/// again it can.
pub proof fn lemma_readonly_blocks_write(m: FsMap, p: PathModel, bytes: Seq<u8>)
    requires
        fs_wf(m),
        !has_special(p),
        m.contains_key(p),
        m[p] is File,
    ensures
        set_readonly_outcome(m, p, true) is Ok,
        write_file_outcome(set_readonly_outcome(m, p, true)->Ok_0, p, bytes)
            == Err::<FsMap, ErrorKind>(ErrorKind::PermissionDenied),
        set_readonly_outcome(set_readonly_outcome(m, p, true)->Ok_0, p, false) is Ok,
        write_file_outcome(
            set_readonly_outcome(set_readonly_outcome(m, p, true)->Ok_0, p, false)->Ok_0,
            p,
            bytes,
        ) is Ok,
{
    let mode = mode_of(m[p]);
    let ro = mode & !0o222u32;
    let rw = ro | 0o222u32;
    assert(ro & 0o222u32 == 0) by (bit_vector)
        requires
            ro == mode & !0o222u32,
    ;
    assert(rw & 0o222u32 != 0) by (bit_vector)
        requires
            rw == ro | 0o222u32,
    ;
    let m1 = set_readonly_outcome(m, p, true)->Ok_0;
    assert(m1.contains_key(p) && m1[p] is File);
    let m2 = set_readonly_outcome(m1, p, false)->Ok_0;
    assert(m2.contains_key(p) && m2[p] is File);
}

/// Where the last component is absent, following it or not is the same.
proof fn lemma_walk_absent_follow(m: FsMap, p: PathModel, v: Set<PathModel>, n: nat, i: nat, acc: PathModel)
    requires
        walk(m, p, false, v, n, i, acc) is Ok,
        !m.contains_key(walk(m, p, false, v, n, i, acc)->Ok_0),
    ensures
        walk(m, p, true, v, n, i, acc) == walk(m, p, false, v, n, i, acc),
    decreases p.len() - i,
{
    if i < p.len() {
        let a = acc.push(p[i as int]);
        if m.contains_key(a) {
            if m[a] is Symlink {
                if !(i + 1 == p.len()) {
                    lemma_walk_absent_follow(m, p, v, n, i + 1, link(m, a, v, n)->Ok_0);
                }
            } else {
                lemma_walk_absent_follow(m, p, v, n, i + 1, a);
            }
        }
    }
}

/// A path that leads to an entry, followed, also leads to an entry unfollowed.
proof fn lemma_walk_present_unfollowed(m: FsMap, p: PathModel, v: Set<PathModel>, n: nat, i: nat, acc: PathModel)
    requires
        walk(m, p, true, v, n, i, acc) is Ok,
        m.contains_key(walk(m, p, true, v, n, i, acc)->Ok_0),
        i < p.len() || m.contains_key(acc),
    ensures
        walk(m, p, false, v, n, i, acc) is Ok,
        m.contains_key(walk(m, p, false, v, n, i, acc)->Ok_0),
    decreases p.len() - i,
{
    if i < p.len() {
        let a = acc.push(p[i as int]);
        if m.contains_key(a) {
            if m[a] is Symlink {
                if !(i + 1 == p.len()) {
                    lemma_walk_present_unfollowed(m, p, v, n, i + 1, link(m, a, v, n)->Ok_0);
                }
            } else {
                lemma_walk_present_unfollowed(m, p, v, n, i + 1, a);
            }
        }
    }
}

/// After `create_dir_all` succeeds, the path leads to a directory; the
/// table stays well formed whatever the outcome.
proof fn lemma_create_dir_all_makes_dir(m: FsMap, p: PathModel)
    requires
        fs_wf(m),
    ensures
        fs_wf(create_dir_all_outcome(m, p).1),
        create_dir_all_outcome(m, p).0 is Ok && p.len() > 0 ==> is_dir_at(create_dir_all_outcome(m, p).1, p),
    decreases p.len(),
{
    if p.len() > 0 {
        lemma_create_dir_made(m, p);
        match create_dir_outcome(m, p) {
            Ok(_) => {},
            Err(e) => if e == ErrorKind::NotFound {
                lemma_create_dir_all_makes_dir(m, p.drop_last());
                let m1 = create_dir_all_outcome(m, p.drop_last()).1;
                lemma_create_dir_made(m1, p);
            },
        }
    }
}

/// A successful `create_dir` leaves a directory where the path leads.
proof fn lemma_create_dir_made(m: FsMap, p: PathModel)
    requires
        fs_wf(m),
    ensures
        create_dir_outcome(m, p) is Ok ==> fs_wf(create_dir_outcome(m, p)->Ok_0) && is_dir_at(
            create_dir_outcome(m, p)->Ok_0,
            p,
        ),
{
    if create_dir_outcome(m, p) is Ok {
        let q = resolve(m, p, false)->Ok_0;
        lemma_insert_wf(m, q, new_dir());
        if !m.contains_key(p) {
            lemma_walk_absent_follow(m, p, Set::empty(), m.dom().len(), 0, Seq::empty());
        }
        lemma_resolve_insert(m, p, true, q, new_dir());
    }
}

/// Once `create_dir_all` has succeeded, calling it again on the same path
/// succeeds and changes nothing.
pub proof fn lemma_create_dir_all_twice(m: FsMap, p: PathModel)
    requires
        fs_wf(m),
        create_dir_all_outcome(m, p).0 is Ok,
    ensures
        create_dir_all_outcome(create_dir_all_outcome(m, p).1, p) == (
            Ok::<(), ErrorKind>(()),
            create_dir_all_outcome(m, p).1,
        ),
{
    let m2 = create_dir_all_outcome(m, p).1;
    if p.len() > 0 {
        lemma_create_dir_all_makes_dir(m, p);
        let q = resolve(m2, p, true)->Ok_0;
        if !m2.contains_key(p) {
            if p.len() == 0 {
                assert(p =~= Seq::<Seq<char>>::empty());
            }
            lemma_walk_present_unfollowed(m2, p, Set::empty(), m2.dom().len(), 0, Seq::empty());
        }
        assert(create_dir_outcome(m2, p) == Err::<FsMap, ErrorKind>(ErrorKind::AlreadyExists));
    }
}

/// A symlink just made reads back the target text exactly as given.
pub proof fn lemma_symlink_round_trip(m: FsMap, source: Seq<char>, l: PathModel)
    requires
        fs_wf(m),
        symlink_outcome(m, source, l) is Ok,
    ensures
        read_link_result(symlink_outcome(m, source, l)->Ok_0, l) == Ok::<Seq<char>, ErrorKind>(source),
{
    let q = resolve(m, l, false)->Ok_0;
    lemma_resolve_insert(m, l, false, q, NodeView::Symlink { mode: 0o644, source });
}

/// Following links while more of them are being followed, with less fuel,
/// gives the same result or runs into a cycle.
proof fn lemma_link_mono(m: FsMap, k: PathModel, v: Set<PathModel>, v2: Set<PathModel>, n: nat, n2: nat)
    requires
        v.subset_of(v2),
        n2 <= n,
    ensures
        link(m, k, v2, n2) == link(m, k, v, n) || link(m, k, v2, n2) == Err::<PathModel, ErrorKind>(
            ErrorKind::Other,
        ),
    decreases n2, 0nat, 0nat,
{
    if !v2.contains(k) && n2 > 0 && m[k] is Symlink {
        let t = target_of(m[k]->source);
        if t is Some {
            lemma_res_mono(m, t->0, true, v.insert(k), v2.insert(k), (n - 1) as nat, (n2 - 1) as nat);
        }
    }
}

proof fn lemma_res_mono(
    m: FsMap,
    p: PathModel,
    fl: bool,
    v: Set<PathModel>,
    v2: Set<PathModel>,
    n: nat,
    n2: nat,
)
    requires
        v.subset_of(v2),
        n2 <= n,
    ensures
        res(m, p, fl, v2, n2) == res(m, p, fl, v, n) || res(m, p, fl, v2, n2) == Err::<
            PathModel,
            ErrorKind,
        >(ErrorKind::Other),
    decreases n2, 2nat, 0nat,
{
    lemma_link_mono(m, p, v, v2, n, n2);
    lemma_walk_mono(m, p, fl, v, v2, n, n2, 0, Seq::empty());
}

proof fn lemma_walk_mono(
    m: FsMap,
    p: PathModel,
    fl: bool,
    v: Set<PathModel>,
    v2: Set<PathModel>,
    n: nat,
    n2: nat,
    i: nat,
    acc: PathModel,
)
    requires
        v.subset_of(v2),
        n2 <= n,
    ensures
        walk(m, p, fl, v2, n2, i, acc) == walk(m, p, fl, v, n, i, acc) || walk(m, p, fl, v2, n2, i, acc)
            == Err::<PathModel, ErrorKind>(ErrorKind::Other),
    decreases n2, 1nat, p.len() - i,
{
    if i < p.len() {
        let a = acc.push(p[i as int]);
        if m.contains_key(a) {
            if m[a] is Symlink {
                lemma_link_mono(m, a, v, v2, n, n2);
                if link(m, a, v2, n2) is Ok {
                    lemma_walk_mono(m, p, fl, v, v2, n, n2, i + 1, link(m, a, v2, n2)->Ok_0);
                }
            } else {
                lemma_walk_mono(m, p, fl, v, v2, n, n2, i + 1, a);
            }
        }
    }
}

/// Links being followed are entries of the table, and the fuel covers every
/// link that is not among them.
pub open spec fn enough_fuel(m: FsMap, v: Set<PathModel>, n: nat) -> bool {
    &&& m.dom().finite()
    &&& v.subset_of(m.dom())
    &&& v.len() + n >= m.dom().len()
}

proof fn lemma_fuel_left(m: FsMap, v: Set<PathModel>, n: nat, k: PathModel)
    requires
        enough_fuel(m, v, n),
        m.contains_key(k),
        !v.contains(k),
    ensures
        n > 0,
        enough_fuel(m, v.insert(k), (n - 1) as nat),
{
    vstd::set_lib::lemma_set_subset_finite(m.dom(), v);
    vstd::set_lib::lemma_len_subset(v.insert(k), m.dom());
}

/// Where following with the link `l` already on the way meets a cycle, so
/// does following without it, as long as the target of `l` cycles too.
proof fn lemma_link_cycle(
    m: FsMap,
    l: PathModel,
    s: PathModel,
    k: PathModel,
    v: Set<PathModel>,
    n: nat,
    n2: nat,
)
    requires
        m.contains_key(l),
        m[l] is Symlink,
        target_of(m[l]->source) == Some(s),
        res(m, s, true, set![l], (m.dom().len() - 1) as nat) == Err::<PathModel, ErrorKind>(ErrorKind::Other),
        n <= m.dom().len(),
        n2 <= n,
        !v.contains(l),
        enough_fuel(m, v, n),
        enough_fuel(m, v.insert(l), n2),
        m.contains_key(k),
        link(m, k, v.insert(l), n2) == Err::<PathModel, ErrorKind>(ErrorKind::Other),
    ensures
        link(m, k, v, n) == Err::<PathModel, ErrorKind>(ErrorKind::Other),
    decreases n, 0nat, 0nat,
{
    if k == l {
        if !v.contains(k) && n > 0 {
            assert(set![l].subset_of(v.insert(l)));
            lemma_res_mono(m, s, true, set![l], v.insert(l), (m.dom().len() - 1) as nat, (n - 1) as nat);
        }
    } else if !v.contains(k) {
        lemma_fuel_left(m, v, n, k);
        lemma_fuel_left(m, v.insert(l), n2, k);
        if m[k] is Symlink {
            let t = target_of(m[k]->source)->0;
            assert(v.insert(l).insert(k) =~= v.insert(k).insert(l));
            lemma_res_cycle(m, l, s, t, true, v.insert(k), (n - 1) as nat, (n2 - 1) as nat);
        }
    }
}

proof fn lemma_res_cycle(
    m: FsMap,
    l: PathModel,
    s: PathModel,
    p: PathModel,
    fl: bool,
    v: Set<PathModel>,
    n: nat,
    n2: nat,
)
    requires
        m.contains_key(l),
        m[l] is Symlink,
        target_of(m[l]->source) == Some(s),
        res(m, s, true, set![l], (m.dom().len() - 1) as nat) == Err::<PathModel, ErrorKind>(ErrorKind::Other),
        n <= m.dom().len(),
        n2 <= n,
        !v.contains(l),
        enough_fuel(m, v, n),
        enough_fuel(m, v.insert(l), n2),
    ensures
        res(m, p, fl, v.insert(l), n2) == Err::<PathModel, ErrorKind>(ErrorKind::Other) ==> res(m, p, fl, v, n)
            == Err::<PathModel, ErrorKind>(ErrorKind::Other),
    decreases n, 2nat, 0nat,
{
    if !has_special(p) && m.contains_key(p) && m[p] is Symlink && fl {
        if link(m, p, v.insert(l), n2) == Err::<PathModel, ErrorKind>(ErrorKind::Other) {
            lemma_link_cycle(m, l, s, p, v, n, n2);
        }
    } else if !has_special(p) && !m.contains_key(p) {
        lemma_walk_cycle(m, l, s, p, fl, v, n, n2, 0, Seq::empty());
    }
}

proof fn lemma_walk_cycle(
    m: FsMap,
    l: PathModel,
    s: PathModel,
    p: PathModel,
    fl: bool,
    v: Set<PathModel>,
    n: nat,
    n2: nat,
    i: nat,
    acc: PathModel,
)
    requires
        m.contains_key(l),
        m[l] is Symlink,
        target_of(m[l]->source) == Some(s),
        res(m, s, true, set![l], (m.dom().len() - 1) as nat) == Err::<PathModel, ErrorKind>(ErrorKind::Other),
        n <= m.dom().len(),
        n2 <= n,
        !v.contains(l),
        enough_fuel(m, v, n),
        enough_fuel(m, v.insert(l), n2),
    ensures
        walk(m, p, fl, v.insert(l), n2, i, acc) == Err::<PathModel, ErrorKind>(ErrorKind::Other) ==> walk(
            m,
            p,
            fl,
            v,
            n,
            i,
            acc,
        ) == Err::<PathModel, ErrorKind>(ErrorKind::Other),
    decreases n, 1nat, p.len() - i,
{
    if i < p.len() {
        let a = acc.push(p[i as int]);
        if m.contains_key(a) {
            if m[a] is Symlink {
                if !(i + 1 == p.len() && !fl) {
                    let r2 = link(m, a, v.insert(l), n2);
                    if r2 == Err::<PathModel, ErrorKind>(ErrorKind::Other) {
                        lemma_link_cycle(m, l, s, a, v, n, n2);
                    } else {
                        lemma_link_mono(m, a, v, v.insert(l), n, n2);
                        if r2 is Ok {
                            lemma_walk_cycle(m, l, s, p, fl, v, n, n2, i + 1, r2->Ok_0);
                        }
                    }
                }
            } else {
                lemma_walk_cycle(m, l, s, p, fl, v, n, n2, i + 1, a);
            }
        }
    }
}

/// A symlink is a file or a directory exactly as its target path, resolved,
/// is. A link whose target leads nowhere is neither.
pub proof fn lemma_symlink_reflects_target(m: FsMap, l: PathModel, t: PathModel)
    requires
        fs_wf(m),
        !has_special(l),
        m.contains_key(l),
        m[l] is Symlink,
        target_of(m[l]->source) == Some(t),
    ensures
        is_file_at(m, l) ==> is_file_at(m, t),
        is_dir_at(m, l) ==> is_dir_at(m, t),
        is_file_at(m, l) == is_file_at(m, t),
        is_dir_at(m, l) == is_dir_at(m, t),
{
    assert(m.dom().contains(l));
    if m.dom().len() == 0 {
        assert(m.dom() =~= Set::empty());
    }
    let n = m.dom().len();
    let e = Set::<PathModel>::empty();
    assert(e.subset_of(e.insert(l)));
    lemma_res_mono(m, t, true, e, e.insert(l), n, (n - 1) as nat);
    assert(resolve(m, l, true) == follow(m, l));
    if res(m, t, true, set![l], (n - 1) as nat) == Err::<PathModel, ErrorKind>(ErrorKind::Other) {
        assert(e.insert(l) =~= set![l]);
        assert(set![l].len() == 1);
        assert(set![l].subset_of(m.dom()));
        assert(e.len() == 0);
        lemma_res_cycle(m, l, t, t, true, e, n, (n - 1) as nat);
    }
}

/// Once the file that a symlink points to is removed, the link is neither a
/// file nor a directory.
pub proof fn lemma_symlink_broken_by_removal(m: FsMap, l: PathModel, t: PathModel)
    requires
        fs_wf(m),
        !has_special(l),
        m.contains_key(l),
        m[l] is Symlink,
        target_of(m[l]->source) == Some(t),
        m.contains_key(t),
        m[t] is File,
    ensures
        remove_file_outcome(m, t) is Ok,
        !is_file_at(remove_file_outcome(m, t)->Ok_0, l),
        !is_dir_at(remove_file_outcome(m, t)->Ok_0, l),
{
    let m2 = m.remove(t);
    assert(remove_file_outcome(m, t) == Ok::<FsMap, ErrorKind>(m2));
    if t.len() == 0 {
        assert(t =~= Seq::<Seq<char>>::empty());
    }
    lemma_nothing_below(m, t);
    lemma_remove_wf(m, t);
    lemma_symlink_reflects_target(m2, l, t);
    assert(!has_special(t));
    lemma_walk_dirs(m2, t, true, Set::empty(), m2.dom().len(), 0);
    assert(t.subrange(0, 0) =~= Seq::<Seq<char>>::empty());
}

/// Renaming a directory that holds entries onto another that holds entries
/// fails; the contract of `rename` then leaves both untouched.
pub proof fn lemma_rename_onto_nonempty_dir_fails(m: FsMap, f: PathModel, t: PathModel)
    requires
        fs_wf(m),
        f != t,
        m.contains_key(f),
        m[f] is Dir,
        has_below(m, f),
        m.contains_key(t),
        m[t] is Dir,
        has_below(m, t),
    ensures
        rename_outcome(m, f, t) is Err,
{
}

/// Scratch directories made with different suffixes are different paths.
pub proof fn lemma_temp_paths_differ(base: PathModel, prefix: Seq<char>, s1: Seq<char>, s2: Seq<char>)
    requires
        s1 != s2,
    ensures
        temp_path(base, prefix, s1) != temp_path(base, prefix, s2),
{
    let n1 = prefix + seq!['_'] + s1;
    let n2 = prefix + seq!['_'] + s2;
    if n1 == n2 {
        assert(s1 =~= n1.skip(prefix.len() as int + 1));
        assert(s2 =~= n2.skip(prefix.len() as int + 1));
    }
    assert(temp_path(base, prefix, s1).last() == n1);
    assert(temp_path(base, prefix, s2).last() == n2);
}

} // verus!
