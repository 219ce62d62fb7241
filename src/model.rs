//! What each operation of the file system does, stated over the map from
//! absolute path to node.

use vstd::prelude::*;

use crate::error::ErrorKind;
use crate::node::{mode_of, readable, readonly_mode, with_mode, writable, NodeView};
use crate::path::{has_special, is_prefix, target_of, PathModel};
use crate::table::{all_below_readable, child_paths, has_below, moved, without_subtree};

verus! {

/// The contents of a file system: absolute path to node.
pub type FsMap = Map<PathModel, NodeView>;

/// The size reported for a directory.
pub const DIR_LEN: u64 = 4096;

/// The size reported for a symlink.
pub const SYMLINK_LEN: u64 = 34;

/// A call that changes the map ended as `o` says: on success the map is
/// the new one, on failure the same error came back and nothing changed.
pub open spec fn applied(r: Result<(), ErrorKind>, o: Result<FsMap, ErrorKind>, before: FsMap, after: FsMap) -> bool {
    match o {
        Ok(m2) => r is Ok && after == m2,
        Err(e) => r == Err::<(), ErrorKind>(e) && after == before,
    }
}

/// The root is a directory, and each other path sits in a directory that
/// is in the table.
pub open spec fn fs_wf(m: FsMap) -> bool {
    &&& m.dom().finite()
    &&& m.contains_key(Seq::empty())
    &&& m[Seq::empty()] is Dir
    &&& forall|k: PathModel|
        #![trigger m.contains_key(k)]
        m.contains_key(k) && k.len() > 0 ==> m.contains_key(k.drop_last()) && m[k.drop_last()] is Dir
}

/// Resolves `p` in `m` while the links in `visiting` are being followed;
/// `fuel` bounds the nesting and is never short when it starts at the size
/// of the table. The last component is followed only when `follow_last`
/// holds. A path whose last component does not exist yet resolves to itself,
/// for the operations that create it. A `.` or `..` component is refused
/// with `InvalidInput`.
pub open spec fn res(m: FsMap, p: PathModel, follow_last: bool, visiting: Set<PathModel>, fuel: nat) -> Result<
    PathModel,
    ErrorKind,
>
    decreases fuel, 2nat, 0nat,
{
    if has_special(p) {
        Err(ErrorKind::InvalidInput)
    } else if m.contains_key(p) {
        if m[p] is Symlink && follow_last {
            link(m, p, visiting, fuel)
        } else {
            Ok(p)
        }
    } else {
        walk(m, p, follow_last, visiting, fuel, 0, Seq::empty())
    }
}

/// Follows the symlink at `k`: its stored target is resolved from the root,
/// following every link on the way, and must lead to an existing entry. A
/// link met again while it is being followed is a cycle: `Other`.
pub open spec fn link(m: FsMap, k: PathModel, visiting: Set<PathModel>, fuel: nat) -> Result<
    PathModel,
    ErrorKind,
>
    decreases fuel, 0nat, 0nat,
{
    if visiting.contains(k) || fuel == 0 {
        Err(ErrorKind::Other)
    } else {
        match m[k] {
            NodeView::Symlink { source, .. } => match target_of(source) {
                None => Err(ErrorKind::NotFound),
                Some(t) => match res(m, t, true, visiting.insert(k), (fuel - 1) as nat) {
                    Err(e) => Err(e),
                    Ok(q) => if m.contains_key(q) {
                        Ok(q)
                    } else {
                        Err(ErrorKind::NotFound)
                    },
                },
            },
            _ => Ok(k),
        }
    }
}

/// Walks the components of `p` from index `i`, `acc` being where the walk
/// stands, substituting the target of each symlink met on the way.
pub open spec fn walk(
    m: FsMap,
    p: PathModel,
    follow_last: bool,
    visiting: Set<PathModel>,
    fuel: nat,
    i: nat,
    acc: PathModel,
) -> Result<PathModel, ErrorKind>
    decreases fuel, 1nat, p.len() - i,
{
    if i >= p.len() {
        Ok(acc)
    } else {
        let a = acc.push(p[i as int]);
        let last = i + 1 == p.len();
        if !m.contains_key(a) {
            if last {
                Ok(a)
            } else {
                Err(ErrorKind::NotFound)
            }
        } else if m[a] is Symlink {
            if last && !follow_last {
                Ok(a)
            } else {
                match link(m, a, visiting, fuel) {
                    Ok(q) => walk(m, p, follow_last, visiting, fuel, i + 1, q),
                    Err(e) => Err(e),
                }
            }
        } else {
            walk(m, p, follow_last, visiting, fuel, i + 1, a)
        }
    }
}

/// A followed link ends at an entry of the table that is no symlink.
pub proof fn lemma_link_ok(m: FsMap, k: PathModel, v: Set<PathModel>, n: nat)
    requires
        m.contains_key(k),
        m[k] is Symlink,
        link(m, k, v, n) is Ok,
    ensures
        m.contains_key(link(m, k, v, n)->Ok_0),
        !(m[link(m, k, v, n)->Ok_0] is Symlink),
    decreases n, 0nat, 0nat,
{
    let t = target_of(m[k]->source)->0;
    lemma_res_ok(m, t, v.insert(k), (n - 1) as nat);
}

pub proof fn lemma_res_ok(m: FsMap, p: PathModel, v: Set<PathModel>, n: nat)
    ensures
        res(m, p, true, v, n) is Ok && m.contains_key(res(m, p, true, v, n)->Ok_0) ==> !(m[res(
            m,
            p,
            true,
            v,
            n,
        )->Ok_0] is Symlink),
    decreases n, 2nat, 0nat,
{
    if !has_special(p) {
        if m.contains_key(p) {
            if m[p] is Symlink && link(m, p, v, n) is Ok {
                lemma_link_ok(m, p, v, n);
            }
        } else {
            if p.len() == 0 {
                assert(p =~= Seq::<Seq<char>>::empty());
            }
            lemma_walk_ok(m, p, v, n, 0, Seq::empty());
        }
    }
}

pub proof fn lemma_walk_ok(m: FsMap, p: PathModel, v: Set<PathModel>, n: nat, i: nat, acc: PathModel)
    requires
        i < p.len() || !m.contains_key(acc) || !(m[acc] is Symlink),
    ensures
        walk(m, p, true, v, n, i, acc) is Ok && m.contains_key(walk(m, p, true, v, n, i, acc)->Ok_0)
            ==> !(m[walk(m, p, true, v, n, i, acc)->Ok_0] is Symlink),
    decreases n, 1nat, p.len() - i,
{
    if i < p.len() {
        let a = acc.push(p[i as int]);
        if m.contains_key(a) {
            if m[a] is Symlink {
                if link(m, a, v, n) is Ok {
                    lemma_link_ok(m, a, v, n);
                    lemma_walk_ok(m, p, v, n, i + 1, link(m, a, v, n)->Ok_0);
                }
            } else {
                lemma_walk_ok(m, p, v, n, i + 1, a);
            }
        }
    }
}

/// Where `p` lives once symlinks are substituted (see `res`).
pub open spec fn resolve(m: FsMap, p: PathModel, follow_last: bool) -> Result<PathModel, ErrorKind> {
    res(m, p, follow_last, Set::empty(), m.dom().len())
}

/// Where the symlink at `k` leads.
pub open spec fn follow(m: FsMap, k: PathModel) -> Result<PathModel, ErrorKind> {
    link(m, k, Set::empty(), m.dom().len())
}

/// Puts `n` at the resolved path `q`, whose parent must be a writable directory.
pub open spec fn insert_at(m: FsMap, q: PathModel, n: NodeView) -> Result<FsMap, ErrorKind> {
    if q.len() == 0 || m.contains_key(q) {
        Err(ErrorKind::AlreadyExists)
    } else if !m.contains_key(q.drop_last()) || !(m[q.drop_last()] is Dir) {
        Err(ErrorKind::NotADirectory)
    } else if !writable(mode_of(m[q.drop_last()])) {
        Err(ErrorKind::PermissionDenied)
    } else {
        Ok(m.insert(q, n))
    }
}

pub open spec fn new_file(contents: Seq<u8>) -> NodeView {
    NodeView::File { contents, mode: 0o644 }
}

pub open spec fn new_dir() -> NodeView {
    NodeView::Dir { mode: 0o644 }
}

pub open spec fn is_dir_at(m: FsMap, p: PathModel) -> bool {
    match resolve(m, p, true) {
        Ok(q) => m.contains_key(q) && m[q] is Dir,
        Err(_) => false,
    }
}

pub open spec fn is_file_at(m: FsMap, p: PathModel) -> bool {
    match resolve(m, p, true) {
        Ok(q) => m.contains_key(q) && m[q] is File,
        Err(_) => false,
    }
}

/// The directory that `p` leads to.
pub open spec fn dir_target(m: FsMap, p: PathModel) -> Result<PathModel, ErrorKind> {
    match resolve(m, p, true) {
        Err(e) => Err(e),
        Ok(q) => if !m.contains_key(q) {
            Err(ErrorKind::NotFound)
        } else if m[q] is Dir {
            Ok(q)
        } else {
            Err(ErrorKind::NotADirectory)
        },
    }
}

pub open spec fn create_dir_outcome(m: FsMap, p: PathModel) -> Result<FsMap, ErrorKind> {
    match resolve(m, p, false) {
        Err(e) => Err(e),
        Ok(q) => insert_at(m, q, new_dir()),
    }
}

/// `mkdir -p`: the parents first, and an existing directory is no failure.
/// Gives the result and the map afterwards: parents made before a failure stay.
pub open spec fn create_dir_all_outcome(m: FsMap, p: PathModel) -> (Result<(), ErrorKind>, FsMap)
    decreases p.len(),
{
    if p.len() == 0 {
        (Ok(()), m)
    } else {
        match create_dir_outcome(m, p) {
            Ok(m2) => (Ok(()), m2),
            Err(e) => if e != ErrorKind::NotFound {
                if is_dir_at(m, p) {
                    (Ok(()), m)
                } else {
                    (Err(e), m)
                }
            } else {
                let (r2, m2) = create_dir_all_outcome(m, p.drop_last());
                match r2 {
                    Err(e2) => (Err(e2), m2),
                    Ok(_) => match create_dir_outcome(m2, p) {
                        Ok(m3) => (Ok(()), m3),
                        Err(e3) => if is_dir_at(m2, p) {
                            (Ok(()), m2)
                        } else {
                            (Err(e3), m2)
                        },
                    },
                }
            },
        }
    }
}

/// `create_dir_all` only adds entries.
pub proof fn lemma_create_dir_all_grows(m: FsMap, p: PathModel)
    ensures
        m.dom().subset_of(create_dir_all_outcome(m, p).1.dom()),
    decreases p.len(),
{
    if p.len() > 0 {
        match create_dir_outcome(m, p) {
            Ok(m2) => {},
            Err(e) => if e == ErrorKind::NotFound {
                lemma_create_dir_all_grows(m, p.drop_last());
            },
        }
    }
}

/// Removes an empty directory. The root is never removed: it fails with `Other`.
pub open spec fn remove_dir_outcome(m: FsMap, p: PathModel) -> Result<FsMap, ErrorKind> {
    match resolve(m, p, false) {
        Err(e) => Err(e),
        Ok(q) => if !m.contains_key(q) {
            Err(ErrorKind::NotFound)
        } else if !(m[q] is Dir) {
            Err(ErrorKind::NotADirectory)
        } else if has_below(m, q) {
            Err(ErrorKind::DirectoryNotEmpty)
        } else if q.len() == 0 {
            Err(ErrorKind::Other)
        } else {
            Ok(m.remove(q))
        },
    }
}

/// Removes a writable directory and its whole subtree, but only when every
/// entry below it is readable. The root is never removed.
pub open spec fn remove_dir_all_outcome(m: FsMap, p: PathModel) -> Result<FsMap, ErrorKind> {
    match resolve(m, p, false) {
        Err(e) => Err(e),
        Ok(q) => if !m.contains_key(q) {
            Err(ErrorKind::NotFound)
        } else if !(m[q] is Dir) {
            Err(ErrorKind::NotADirectory)
        } else if !writable(mode_of(m[q])) || !all_below_readable(m, q) {
            Err(ErrorKind::PermissionDenied)
        } else if q.len() == 0 {
            Err(ErrorKind::Other)
        } else {
            Ok(without_subtree(m, q))
        },
    }
}

pub open spec fn read_dir_result(m: FsMap, p: PathModel) -> Result<Set<PathModel>, ErrorKind> {
    match dir_target(m, p) {
        Err(e) => Err(e),
        Ok(q) => Ok(child_paths(m, q)),
    }
}

pub open spec fn create_file_outcome(m: FsMap, p: PathModel, contents: Seq<u8>) -> Result<
    FsMap,
    ErrorKind,
> {
    match resolve(m, p, true) {
        Err(e) => Err(e),
        Ok(q) => insert_at(m, q, new_file(contents)),
    }
}

/// Writes `contents` to the resolved path `q`, creating the file there if
/// nothing is.
pub open spec fn write_at(m: FsMap, q: PathModel, contents: Seq<u8>, create: bool) -> Result<
    FsMap,
    ErrorKind,
> {
    if !m.contains_key(q) {
        if create {
            insert_at(m, q, new_file(contents))
        } else {
            Err(ErrorKind::NotFound)
        }
    } else {
        match m[q] {
            NodeView::File { mode, .. } => if writable(mode) {
                Ok(m.insert(q, NodeView::File { contents, mode }))
            } else {
                Err(ErrorKind::PermissionDenied)
            },
            _ => Err(ErrorKind::IsADirectory),
        }
    }
}

pub open spec fn write_file_outcome(m: FsMap, p: PathModel, contents: Seq<u8>) -> Result<
    FsMap,
    ErrorKind,
> {
    match resolve(m, p, true) {
        Err(e) => Err(e),
        Ok(q) => write_at(m, q, contents, true),
    }
}

pub open spec fn overwrite_file_outcome(m: FsMap, p: PathModel, contents: Seq<u8>) -> Result<
    FsMap,
    ErrorKind,
> {
    match resolve(m, p, true) {
        Err(e) => Err(e),
        Ok(q) => write_at(m, q, contents, false),
    }
}

/// The contents of the file at the resolved path `q`.
pub open spec fn read_at(m: FsMap, q: PathModel) -> Result<Seq<u8>, ErrorKind> {
    if !m.contains_key(q) {
        Err(ErrorKind::NotFound)
    } else {
        match m[q] {
            NodeView::File { contents, mode } => if readable(mode) {
                Ok(contents)
            } else {
                Err(ErrorKind::PermissionDenied)
            },
            _ => Err(ErrorKind::IsADirectory),
        }
    }
}

pub open spec fn read_file_result(m: FsMap, p: PathModel) -> Result<Seq<u8>, ErrorKind> {
    match resolve(m, p, true) {
        Err(e) => Err(e),
        Ok(q) => read_at(m, q),
    }
}

pub open spec fn remove_file_outcome(m: FsMap, p: PathModel) -> Result<FsMap, ErrorKind> {
    match resolve(m, p, false) {
        Err(e) => Err(e),
        Ok(q) => if !m.contains_key(q) {
            Err(ErrorKind::NotFound)
        } else if m[q] is Dir {
            Err(ErrorKind::Other)
        } else {
            Ok(m.remove(q))
        },
    }
}

/// Copies the bytes of `from` to `to`, as `write_file` would write them there.
pub open spec fn copy_file_outcome(m: FsMap, from: PathModel, to: PathModel) -> Result<
    FsMap,
    ErrorKind,
> {
    match resolve(m, from, true) {
        Err(e) => Err(e),
        Ok(fq) => match resolve(m, to, true) {
            Err(e) => Err(e),
            Ok(tq) => match read_at(m, fq) {
                Err(e) => if e == ErrorKind::IsADirectory {
                    Err(ErrorKind::InvalidInput)
                } else {
                    Err(e)
                },
                Ok(bytes) => write_at(m, tq, bytes, true),
            },
        },
    }
}

pub open spec fn read_link_result(m: FsMap, p: PathModel) -> Result<Seq<char>, ErrorKind> {
    match resolve(m, p, false) {
        Err(e) => Err(e),
        Ok(q) => if !m.contains_key(q) {
            Err(ErrorKind::NotFound)
        } else {
            match m[q] {
                NodeView::Symlink { source, .. } => Ok(source),
                _ => Err(ErrorKind::InvalidInput),
            }
        },
    }
}

pub open spec fn symlink_outcome(m: FsMap, source: Seq<char>, p: PathModel) -> Result<
    FsMap,
    ErrorKind,
> {
    match resolve(m, p, false) {
        Err(e) => Err(e),
        Ok(q) => insert_at(m, q, NodeView::Symlink { mode: 0o644, source }),
    }
}

/// The entry itself for a file or a directory, the end of its chain for a symlink.
pub open spec fn effective(m: FsMap, k: PathModel) -> Result<PathModel, ErrorKind> {
    if m[k] is Symlink {
        follow(m, k)
    } else {
        Ok(k)
    }
}

/// Moves the subtree at `f` to `t`, after dropping what was at `t`; the
/// parent of `t` must be a writable directory.
pub open spec fn move_to(m: FsMap, f: PathModel, t: PathModel) -> Result<FsMap, ErrorKind> {
    if t.len() == 0 {
        Err(ErrorKind::Other)
    } else if !m.contains_key(t.drop_last()) || !(m[t.drop_last()] is Dir) {
        Err(ErrorKind::NotADirectory)
    } else if !writable(mode_of(m[t.drop_last()])) {
        Err(ErrorKind::PermissionDenied)
    } else {
        Ok(moved(m.remove(t), f, t))
    }
}

/// Renames `from` to `to`. Both are resolved without following a final
/// symlink; a symlink on either side counts as what its chain ends at, while
/// the link itself is what moves or is replaced. Renaming an entry onto
/// itself changes nothing, and a directory cannot move below itself.
pub open spec fn rename_outcome(m: FsMap, from: PathModel, to: PathModel) -> Result<
    FsMap,
    ErrorKind,
> {
    match resolve(m, from, false) {
        Err(_) => Err(ErrorKind::NotFound),
        Ok(f) => match resolve(m, to, false) {
            Err(_) => Err(ErrorKind::NotFound),
            Ok(t) => if !m.contains_key(f) {
                Err(ErrorKind::NotFound)
            } else if f == t {
                Ok(m)
            } else if !m.contains_key(t) {
                if is_prefix(f, t) {
                    Err(ErrorKind::InvalidInput)
                } else {
                    move_to(m, f, t)
                }
            } else {
                match effective(m, f) {
                    Err(e) => Err(e),
                    Ok(fe) => match effective(m, t) {
                        Err(e) => Err(e),
                        Ok(te) => {
                            let f_dir = m[fe] is Dir;
                            let t_dir = m[te] is Dir;
                            if f_dir && t_dir {
                                if has_below(m, te) {
                                    Err(ErrorKind::Other)
                                } else if is_prefix(f, t) {
                                    Err(ErrorKind::InvalidInput)
                                } else {
                                    move_to(m, f, t)
                                }
                            } else if f_dir {
                                Err(ErrorKind::NotADirectory)
                            } else if t_dir {
                                Err(ErrorKind::IsADirectory)
                            } else if is_prefix(f, t) {
                                Err(ErrorKind::InvalidInput)
                            } else {
                                move_to(m, f, t)
                            }
                        },
                    },
                }
            },
        },
    }
}

/// The node that permission operations act on: `p` resolved, its last
/// component not followed.
pub open spec fn mode_result(m: FsMap, p: PathModel) -> Result<u32, ErrorKind> {
    match resolve(m, p, false) {
        Err(e) => Err(e),
        Ok(q) => if m.contains_key(q) {
            Ok(mode_of(m[q]))
        } else {
            Err(ErrorKind::NotFound)
        },
    }
}

pub open spec fn set_mode_outcome(m: FsMap, p: PathModel, mode: u32) -> Result<FsMap, ErrorKind> {
    match resolve(m, p, false) {
        Err(e) => Err(e),
        Ok(q) => if m.contains_key(q) {
            Ok(m.insert(q, with_mode(m[q], mode)))
        } else {
            Err(ErrorKind::NotFound)
        },
    }
}

pub open spec fn set_readonly_outcome(m: FsMap, p: PathModel, readonly: bool) -> Result<
    FsMap,
    ErrorKind,
> {
    match mode_result(m, p) {
        Err(e) => Err(e),
        Ok(mode) => set_mode_outcome(m, p, readonly_mode(mode, readonly)),
    }
}

/// The size reported for `p`: a file's length, a fixed size for a directory
/// or a symlink, and zero where nothing is.
pub open spec fn len_result(m: FsMap, p: PathModel) -> u64 {
    match resolve(m, p, false) {
        Err(_) => 0,
        Ok(q) => if !m.contains_key(q) {
            0
        } else {
            match m[q] {
                NodeView::File { contents, .. } => contents.len() as u64,
                NodeView::Dir { .. } => DIR_LEN,
                NodeView::Symlink { .. } => SYMLINK_LEN,
            }
        },
    }
}

} // verus!
