//! The table of nodes and the current directory, with every operation of
//! the file system over absolute paths.

use vstd::prelude::*;

use crate::error::ErrorKind;
use crate::model::{
    applied, copy_file_outcome, create_dir_all_outcome, create_dir_outcome, create_file_outcome,
    dir_target, effective, follow, fs_wf, insert_at, is_dir_at, is_file_at,
    lemma_link_ok, len_result, link, res, mode_result, move_to, new_dir, overwrite_file_outcome,
    read_at, read_dir_result, read_file_result, read_link_result, remove_dir_all_outcome,
    remove_dir_outcome, remove_file_outcome, rename_outcome, resolve, set_mode_outcome,
    set_readonly_outcome, symlink_outcome, walk, write_at, write_file_outcome, FsMap,
    DIR_LEN, SYMLINK_LEN,
};
use crate::node::{with_mode, Dir, File, Node, NodeView, Symlink, READ_BITS, WRITE_BITS};
use crate::path::{is_prefix, target_of, target_path, AbsPath, PathModel};
use crate::table::{has_below, NodeTable};
use crate::wf::{
    lemma_insert_wf, lemma_moved_wf, lemma_nothing_below, lemma_remove_wf, lemma_replace_wf,
    lemma_without_subtree_wf,
};
use vstd::utf8::{encode_utf8, valid_utf8};

verus! {

/// The abstract state: the current directory and the path-to-node map.
pub struct RegistryModel {
    pub cwd: PathModel,
    pub files: FsMap,
}

pub open spec fn bytes_view(r: Result<Vec<u8>, ErrorKind>) -> Result<Seq<u8>, ErrorKind> {
    match r {
        Ok(b) => Ok(b@),
        Err(e) => Err(e),
    }
}

/// `v` holds each path of `s` exactly once.
pub open spec fn lists(v: Seq<AbsPath>, s: Set<PathModel>) -> bool {
    &&& forall|k: PathModel| s.contains(k) <==> exists|i: int| 0 <= i < v.len() && #[trigger] v[i]@ == k
    &&& forall|i: int, j: int|
        0 <= i < v.len() && 0 <= j < v.len() && i != j ==> #[trigger] v[i]@ != #[trigger] v[j]@
}

/// Relies on `String::from_utf8`: it succeeds exactly on valid UTF-8, and
/// the string then has those bytes.
#[verifier::external_body]
fn utf8_string(bytes: Vec<u8>) -> (r: Option<String>)
    ensures
        r is Some <==> valid_utf8(bytes@),
        r is Some ==> encode_utf8(r->0@) == bytes@,
{
    String::from_utf8(bytes).ok()
}

/// The paths that a list holds.
pub open spec fn path_set(s: Seq<AbsPath>) -> Set<PathModel> {
    Set::new(|k: PathModel| exists|i: int| 0 <= i < s.len() && #[trigger] s[i]@ == k)
}

fn holds_path(list: &Vec<AbsPath>, k: &AbsPath) -> (r: bool)
    ensures
        r == path_set(list@).contains(k@),
{
    let mut i: usize = 0;
    while i < list.len()
        invariant
            0 <= i <= list@.len(),
            forall|j: int| 0 <= j < i ==> (#[trigger] list@[j])@ != k@,
        decreases list@.len() - i,
    {
        if list[i].same(k) {
            return true;
        }
        i = i + 1;
    }
    false
}

pub open spec fn res_view(r: Result<AbsPath, ErrorKind>) -> Result<PathModel, ErrorKind> {
    match r {
        Ok(p) => Ok(p@),
        Err(e) => Err(e),
    }
}

/// The node table together with the current directory.
#[derive(Debug)]
pub struct Registry {
    cwd: AbsPath,
    files: NodeTable,
}

impl View for Registry {
    type V = RegistryModel;

    closed spec fn view(&self) -> RegistryModel {
        RegistryModel { cwd: self.cwd@, files: self.files@ }
    }
}

impl Default for Registry {
    fn default() -> (r: Registry)
        ensures
            r.wf(),
            r@.cwd == Seq::<Seq<char>>::empty(),
            r@.files == Map::<PathModel, NodeView>::empty().insert(Seq::empty(), new_dir()),
    {
        Registry::new()
    }
}

impl Registry {
    pub closed spec fn wf(&self) -> bool {
        self.files.wf() && fs_wf(self.files@)
    }

    /// A file system holding only the root directory, which is also the
    /// current directory.
    pub fn new() -> (r: Registry)
        ensures
            r.wf(),
            r@.cwd == Seq::<Seq<char>>::empty(),
            r@.files == Map::<PathModel, NodeView>::empty().insert(Seq::empty(), new_dir()),
    {
        let mut files = NodeTable::new();
        files.insert(AbsPath::root(), Node::Dir(Dir::new()));
        let r = Registry { cwd: AbsPath::root(), files };
        proof {
            let m = r@.files;
            assert(m.dom() =~= set![Seq::<Seq<char>>::empty()]);
        }
        r
    }

    /// The directory that `path` leads to.
    pub fn dir_target(&self, path: &AbsPath) -> (r: Result<AbsPath, ErrorKind>)
        requires
            self.wf(),
        ensures
            res_view(r) == dir_target(self@.files, path@),
    {
        let q = self.resolve_path(path, true)?;
        match self.files.get(&q) {
            None => Err(ErrorKind::NotFound),
            Some(Node::Dir(_)) => Ok(q),
            Some(_) => Err(ErrorKind::NotADirectory),
        }
    }

    /// The paths directly inside `dir`, each once.
    pub fn children(&self, dir: &AbsPath) -> (r: Vec<AbsPath>)
        requires
            self.wf(),
        ensures
            lists(r@, crate::table::child_paths(self@.files, dir@)),
    {
        self.files.children(dir)
    }

    /// The map of a well-formed registry keeps the root and every parent.
    pub proof fn lemma_wf(&self)
        requires
            self.wf(),
        ensures
            fs_wf(self@.files),
    {
    }

    /// Follows the symlink at `k` while the links of `visiting` are being
    /// followed.
    fn follow_link(&self, k: &AbsPath, visiting: &mut Vec<AbsPath>, fuel: usize) -> (r: Result<
        AbsPath,
        ErrorKind,
    >)
        requires
            self.wf(),
            self@.files.contains_key(k@),
        ensures
            res_view(r) == link(self@.files, k@, path_set(old(visiting)@), fuel as nat),
            final(visiting)@ == old(visiting)@,
        decreases fuel, 0nat,
    {
        let ghost m = self@.files;
        let ghost v = path_set(visiting@);
        if fuel == 0 || holds_path(visiting, k) {
            return Err(ErrorKind::Other);
        }
        let t = match self.files.get(k) {
            Some(Node::Symlink(link)) => match target_path(link.source.as_str()) {
                None => {
                    return Err(ErrorKind::NotFound);
                },
                Some(t) => t,
            },
            _ => {
                return Ok(k.copy());
            },
        };
        let ghost before = visiting@;
        visiting.push(k.copy());
        proof {
            assert(path_set(visiting@) =~= v.insert(k@)) by {
                assert forall|x: PathModel| path_set(visiting@).contains(x) implies v.insert(k@).contains(x) by {
                    let i = choose|i: int| 0 <= i < visiting@.len() && #[trigger] visiting@[i]@ == x;
                    if i < before.len() {
                        assert(visiting@[i] == before[i]);
                    }
                }
                assert forall|x: PathModel| v.insert(k@).contains(x) implies path_set(visiting@).contains(x) by {
                    if x == k@ {
                        assert(visiting@[before.len() as int]@ == x);
                    } else {
                        let i = choose|i: int| 0 <= i < before.len() && #[trigger] before[i]@ == x;
                        assert(visiting@[i] == before[i]);
                    }
                }
            }
        }
        let q = self.resolve_in(&t, true, visiting, fuel - 1);
        visiting.pop();
        proof {
            assert(visiting@ =~= before);
        }
        let q = q?;
        if self.files.contains(&q) {
            Ok(q)
        } else {
            Err(ErrorKind::NotFound)
        }
    }

    /// Resolves `p` while the links of `visiting` are being followed.
    fn resolve_in(&self, p: &AbsPath, follow_last: bool, visiting: &mut Vec<AbsPath>, fuel: usize) -> (r:
        Result<AbsPath, ErrorKind>)
        requires
            self.wf(),
        ensures
            res_view(r) == res(self@.files, p@, follow_last, path_set(old(visiting)@), fuel as nat),
            final(visiting)@ == old(visiting)@,
        decreases fuel, 2nat,
    {
        let ghost m = self@.files;
        let ghost v = path_set(visiting@);
        let ghost v0 = visiting@;
        if crate::path::any_special(&p.comps) {
            return Err(ErrorKind::InvalidInput);
        }
        match self.files.get(p) {
            Some(node) => {
                if follow_last && matches!(node, Node::Symlink(_)) {
                    return self.follow_link(p, visiting, fuel);
                } else {
                    return Ok(p.copy());
                }
            },
            None => {},
        }
        let mut acc = AbsPath::root();
        let mut i: usize = 0;
        while i < p.len()
            invariant
                self.wf(),
                m == self@.files,
                visiting@ == v0,
                v0 == old(visiting)@,
                v == path_set(v0),
                0 <= i <= p@.len(),
                !m.contains_key(p@),
                !crate::path::has_special(p@),
                walk(m, p@, follow_last, v, fuel as nat, i as nat, acc@) == walk(
                    m,
                    p@,
                    follow_last,
                    v,
                    fuel as nat,
                    0,
                    Seq::empty(),
                ),
            decreases p@.len() - i,
        {
            assert(p@[i as int] == p.comps@[i as int]@);
            let a = acc.child(&p.comps[i]);
            let last = i + 1 == p.len();
            match self.files.get(&a) {
                None => {
                    if last {
                        return Ok(a);
                    } else {
                        return Err(ErrorKind::NotFound);
                    }
                },
                Some(Node::Symlink(_)) => {
                    if last && !follow_last {
                        return Ok(a);
                    }
                    match self.follow_link(&a, visiting, fuel) {
                        Ok(q) => {
                            acc = q;
                        },
                        Err(e) => {
                            return Err(e);
                        },
                    }
                },
                Some(_) => {
                    acc = a;
                },
            }
            i = i + 1;
        }
        Ok(acc)
    }

    /// Follows the symlink at `k`.
    fn recurse_symlink(&self, k: &AbsPath) -> (r: Result<AbsPath, ErrorKind>)
        requires
            self.wf(),
            self@.files.contains_key(k@),
        ensures
            res_view(r) == follow(self@.files, k@),
    {
        let mut visiting: Vec<AbsPath> = Vec::new();
        proof {
            assert(path_set(visiting@) =~= Set::<PathModel>::empty());
        }
        self.follow_link(k, &mut visiting, self.files.len())
    }

    /// Resolves `p` through the symlinks on its way; the last component is
    /// followed only when `follow_last` holds.
    fn resolve_path(&self, p: &AbsPath, follow_last: bool) -> (r: Result<AbsPath, ErrorKind>)
        requires
            self.wf(),
        ensures
            res_view(r) == resolve(self@.files, p@, follow_last),
    {
        let mut visiting: Vec<AbsPath> = Vec::new();
        proof {
            assert(path_set(visiting@) =~= Set::<PathModel>::empty());
        }
        self.resolve_in(p, follow_last, &mut visiting, self.files.len())
    }

    /// The current directory, while it still leads to a directory.
    pub fn current_dir(&self) -> (r: Result<AbsPath, ErrorKind>)
        requires
            self.wf(),
        ensures
            res_view(r) == match dir_target(self@.files, self@.cwd) {
                Ok(_) => Ok(self@.cwd),
                Err(e) => Err(e),
            },
    {
        match self.dir_target(&self.cwd) {
            Ok(_) => Ok(self.cwd.copy()),
            Err(e) => Err(e),
        }
    }

    /// Makes `cwd`, which must lead to a directory, the current directory.
    /// The path is kept as given, symlinks and all.
    pub fn set_current_dir(&mut self, cwd: &AbsPath) -> (r: Result<(), ErrorKind>)
        requires
            old(self).wf(),
        ensures
            final(self).wf(),
            final(self)@.files == old(self)@.files,
            match dir_target(old(self)@.files, cwd@) {
                Ok(_) => r is Ok && final(self)@.cwd == cwd@,
                Err(e) => r == Err::<(), ErrorKind>(e) && final(self)@.cwd == old(self)@.cwd,
            },
    {
        match self.dir_target(cwd) {
            Ok(_) => {
                self.cwd = cwd.copy();
                Ok(())
            },
            Err(e) => Err(e),
        }
    }

    pub fn is_dir(&self, path: &AbsPath) -> (r: bool)
        requires
            self.wf(),
        ensures
            r == is_dir_at(self@.files, path@),
    {
        match self.resolve_path(path, true) {
            Ok(q) => match self.files.get(&q) {
                Some(Node::Dir(_)) => true,
                _ => false,
            },
            Err(_) => false,
        }
    }

    pub fn is_file(&self, path: &AbsPath) -> (r: bool)
        requires
            self.wf(),
        ensures
            r == is_file_at(self@.files, path@),
    {
        match self.resolve_path(path, true) {
            Ok(q) => match self.files.get(&q) {
                Some(Node::File(_)) => true,
                _ => false,
            },
            Err(_) => false,
        }
    }

    /// Adds `n` at the resolved path `q`.
    fn insert(&mut self, q: AbsPath, n: Node) -> (r: Result<(), ErrorKind>)
        requires
            old(self).wf(),
        ensures
            final(self).wf(),
            final(self)@.cwd == old(self)@.cwd,
            applied(r, insert_at(old(self)@.files, q@, n@), old(self)@.files, final(self)@.files),
    {
        if self.files.contains(&q) {
            return Err(ErrorKind::AlreadyExists);
        }
        let parent = match q.parent() {
            None => {
                return Err(ErrorKind::AlreadyExists);
            },
            Some(parent) => parent,
        };
        match self.files.get(&parent) {
            Some(Node::Dir(d)) => {
                if d.mode & WRITE_BITS == 0 {
                    return Err(ErrorKind::PermissionDenied);
                }
            },
            _ => {
                return Err(ErrorKind::NotADirectory);
            },
        }
        proof {
            lemma_insert_wf(self@.files, q@, n@);
        }
        self.files.insert(q, n);
        Ok(())
    }

    /// Creates a directory; its parent must be a writable directory.
    pub fn create_dir(&mut self, path: &AbsPath) -> (r: Result<(), ErrorKind>)
        requires
            old(self).wf(),
        ensures
            final(self).wf(),
            final(self)@.cwd == old(self)@.cwd,
            applied(r, create_dir_outcome(old(self)@.files, path@), old(self)@.files, final(self)@.files),
    {
        match self.make_dir(path) {
            Ok(_) => Ok(()),
            Err(e) => Err(e),
        }
    }

    /// Creates a directory as `create_dir` does, and gives the path where it
    /// now is: `path` resolved, an entry that was not in the table before.
    pub fn make_dir(&mut self, path: &AbsPath) -> (r: Result<AbsPath, ErrorKind>)
        requires
            old(self).wf(),
        ensures
            final(self).wf(),
            final(self)@.cwd == old(self)@.cwd,
            match create_dir_outcome(old(self)@.files, path@) {
                Ok(m2) => r is Ok && final(self)@.files == m2 && r->Ok_0@ == resolve(old(self)@.files, path@, false)->Ok_0
                    && !old(self)@.files.contains_key(r->Ok_0@) && m2.contains_key(r->Ok_0@),
                Err(e) => r == Err::<AbsPath, ErrorKind>(e) && final(self)@.files == old(self)@.files,
            },
    {
        let q = self.resolve_path(path, false)?;
        let made = q.copy();
        match self.insert(q, Node::Dir(Dir::new())) {
            Ok(()) => Ok(made),
            Err(e) => Err(e),
        }
    }

    /// Creates a file holding `buf`; nothing may be at the path yet.
    pub fn create_file(&mut self, path: &AbsPath, buf: &[u8]) -> (r: Result<(), ErrorKind>)
        requires
            old(self).wf(),
        ensures
            final(self).wf(),
            final(self)@.cwd == old(self)@.cwd,
            applied(r, create_file_outcome(old(self)@.files, path@, buf@), old(self)@.files, final(self)@.files),
    {
        let q = self.resolve_path(path, true)?;
        let contents = bytes_of(buf);
        self.insert(q, Node::File(File::new(contents)))
    }

    /// Creates at `dst` a symlink that points to `src`, kept as written.
    pub fn symlink(&mut self, src: &str, dst: &AbsPath) -> (r: Result<(), ErrorKind>)
        requires
            old(self).wf(),
        ensures
            final(self).wf(),
            final(self)@.cwd == old(self)@.cwd,
            applied(r, symlink_outcome(old(self)@.files, src@, dst@), old(self)@.files, final(self)@.files),
    {
        let q = self.resolve_path(dst, false)?;
        self.insert(q, Node::Symlink(Symlink::new(src.to_owned())))
    }

    /// Creates `path` and every missing directory above it. A directory that
    /// is already there is no failure.
    pub fn create_dir_all(&mut self, path: &AbsPath) -> (r: Result<(), ErrorKind>)
        requires
            old(self).wf(),
        ensures
            final(self).wf(),
            final(self)@.cwd == old(self)@.cwd,
            (r, final(self)@.files) == create_dir_all_outcome(old(self)@.files, path@),
        decreases path@.len(),
    {
        if path.len() == 0 {
            return Ok(());
        }
        match self.create_dir(path) {
            Ok(()) => {
                return Ok(());
            },
            Err(e) => {
                if e != ErrorKind::NotFound {
                    if self.is_dir(path) {
                        return Ok(());
                    } else {
                        return Err(e);
                    }
                }
            },
        }
        let parent = match path.parent() {
            Some(parent) => parent,
            None => {
                return Ok(());
            },
        };
        match self.create_dir_all(&parent) {
            Ok(()) => {},
            Err(e) => {
                return Err(e);
            },
        }
        match self.create_dir(path) {
            Ok(()) => Ok(()),
            Err(e) => {
                if self.is_dir(path) {
                    Ok(())
                } else {
                    Err(e)
                }
            },
        }
    }

    /// Removes an empty directory.
    pub fn remove_dir(&mut self, path: &AbsPath) -> (r: Result<(), ErrorKind>)
        requires
            old(self).wf(),
        ensures
            final(self).wf(),
            final(self)@.cwd == old(self)@.cwd,
            applied(r, remove_dir_outcome(old(self)@.files, path@), old(self)@.files, final(self)@.files),
    {
        let q = self.resolve_path(path, false)?;
        match self.files.get(&q) {
            None => {
                return Err(ErrorKind::NotFound);
            },
            Some(Node::Dir(_)) => {},
            Some(_) => {
                return Err(ErrorKind::NotADirectory);
            },
        }
        if self.files.any_below(&q) {
            return Err(ErrorKind::DirectoryNotEmpty);
        }
        if q.len() == 0 {
            return Err(ErrorKind::Other);
        }
        proof {
            lemma_remove_wf(self@.files, q@);
        }
        self.files.remove(&q);
        Ok(())
    }

    /// Removes a writable directory and everything below it, provided that
    /// everything below it is readable; otherwise nothing is removed.
    pub fn remove_dir_all(&mut self, path: &AbsPath) -> (r: Result<(), ErrorKind>)
        requires
            old(self).wf(),
        ensures
            final(self).wf(),
            final(self)@.cwd == old(self)@.cwd,
            applied(r, remove_dir_all_outcome(old(self)@.files, path@), old(self)@.files, final(self)@.files),
    {
        let q = self.resolve_path(path, false)?;
        match self.files.get(&q) {
            None => {
                return Err(ErrorKind::NotFound);
            },
            Some(Node::Dir(d)) => {
                if d.mode & WRITE_BITS == 0 {
                    return Err(ErrorKind::PermissionDenied);
                }
            },
            Some(_) => {
                return Err(ErrorKind::NotADirectory);
            },
        }
        if !self.files.readable_below(&q) {
            return Err(ErrorKind::PermissionDenied);
        }
        if q.len() == 0 {
            return Err(ErrorKind::Other);
        }
        proof {
            lemma_without_subtree_wf(self@.files, q@);
        }
        self.files.remove_subtree(&q);
        Ok(())
    }

    /// The paths directly inside the directory that `path` leads to, in no
    /// particular order.
    pub fn read_dir(&self, path: &AbsPath) -> (r: Result<Vec<AbsPath>, ErrorKind>)
        requires
            self.wf(),
        ensures
            match read_dir_result(self@.files, path@) {
                Ok(s) => r is Ok && lists(r->Ok_0@, s),
                Err(e) => r == Err::<Vec<AbsPath>, ErrorKind>(e),
            },
    {
        let q = self.resolve_path(path, true)?;
        match self.files.get(&q) {
            None => Err(ErrorKind::NotFound),
            Some(Node::Dir(_)) => Ok(self.files.children(&q)),
            Some(_) => Err(ErrorKind::NotADirectory),
        }
    }

    /// Writes `contents` to the resolved path `q`; where nothing is there,
    /// creates the file when `create` holds.
    fn write_to(&mut self, q: AbsPath, contents: Vec<u8>, create: bool) -> (r: Result<(), ErrorKind>)
        requires
            old(self).wf(),
        ensures
            final(self).wf(),
            final(self)@.cwd == old(self)@.cwd,
            applied(r, write_at(old(self)@.files, q@, contents@, create), old(self)@.files, final(self)@.files),
    {
        let writable = match self.files.get(&q) {
            None => {
                if create {
                    return self.insert(q, Node::File(File::new(contents)));
                } else {
                    return Err(ErrorKind::NotFound);
                }
            },
            Some(Node::File(f)) => f.mode & WRITE_BITS != 0,
            Some(_) => {
                return Err(ErrorKind::IsADirectory);
            },
        };
        if !writable {
            return Err(ErrorKind::PermissionDenied);
        }
        proof {
            let m = self@.files;
            lemma_replace_wf(m, q@, NodeView::File { contents: contents@, mode: crate::node::mode_of(m[q@]) });
        }
        self.files.set_contents(&q, contents);
        Ok(())
    }

    /// Replaces the contents of a writable file, or creates the file.
    pub fn write_file(&mut self, path: &AbsPath, buf: &[u8]) -> (r: Result<(), ErrorKind>)
        requires
            old(self).wf(),
        ensures
            final(self).wf(),
            final(self)@.cwd == old(self)@.cwd,
            applied(r, write_file_outcome(old(self)@.files, path@, buf@), old(self)@.files, final(self)@.files),
    {
        let q = self.resolve_path(path, true)?;
        self.write_to(q, bytes_of(buf), true)
    }

    /// Replaces the contents of an existing writable file.
    pub fn overwrite_file(&mut self, path: &AbsPath, buf: &[u8]) -> (r: Result<(), ErrorKind>)
        requires
            old(self).wf(),
        ensures
            final(self).wf(),
            final(self)@.cwd == old(self)@.cwd,
            applied(r, overwrite_file_outcome(old(self)@.files, path@, buf@), old(self)@.files, final(self)@.files),
    {
        let q = self.resolve_path(path, true)?;
        self.write_to(q, bytes_of(buf), false)
    }

    /// The contents of the file at the resolved path `q`.
    fn read_from(&self, q: &AbsPath) -> (r: Result<Vec<u8>, ErrorKind>)
        requires
            self.wf(),
        ensures
            bytes_view(r) == read_at(self@.files, q@),
    {
        match self.files.get(q) {
            None => Err(ErrorKind::NotFound),
            Some(Node::File(f)) => {
                if f.mode & READ_BITS != 0 {
                    Ok(crate::node::copy_bytes(&f.contents))
                } else {
                    Err(ErrorKind::PermissionDenied)
                }
            },
            Some(_) => Err(ErrorKind::IsADirectory),
        }
    }

    /// The contents of a readable file.
    pub fn read_file(&self, path: &AbsPath) -> (r: Result<Vec<u8>, ErrorKind>)
        requires
            self.wf(),
        ensures
            bytes_view(r) == read_file_result(self@.files, path@),
    {
        let q = self.resolve_path(path, true)?;
        self.read_from(&q)
    }

    /// The contents of a readable file as text; `InvalidData` when they are
    /// not UTF-8.
    pub fn read_file_to_string(&self, path: &AbsPath) -> (r: Result<String, ErrorKind>)
        requires
            self.wf(),
        ensures
            match read_file_result(self@.files, path@) {
                Ok(b) => if valid_utf8(b) {
                    r is Ok && encode_utf8(r->Ok_0@) == b
                } else {
                    r == Err::<String, ErrorKind>(ErrorKind::InvalidData)
                },
                Err(e) => r == Err::<String, ErrorKind>(e),
            },
    {
        let bytes = self.read_file(path)?;
        match utf8_string(bytes) {
            Some(text) => Ok(text),
            None => Err(ErrorKind::InvalidData),
        }
    }

    /// Appends the contents of a readable file to `buf` and returns how
    /// many bytes were added.
    pub fn read_file_into(&self, path: &AbsPath, buf: &mut Vec<u8>) -> (r: Result<usize, ErrorKind>)
        requires
            self.wf(),
        ensures
            match read_file_result(self@.files, path@) {
                Ok(b) => r == Ok::<usize, ErrorKind>(b.len() as usize) && final(buf)@ == old(buf)@ + b,
                Err(e) => r == Err::<usize, ErrorKind>(e) && final(buf)@ == old(buf)@,
            },
    {
        let bytes = self.read_file(path)?;
        let ghost start = buf@;
        let mut i: usize = 0;
        while i < bytes.len()
            invariant
                0 <= i <= bytes@.len(),
                buf@ == start + bytes@.subrange(0, i as int),
            decreases bytes@.len() - i,
        {
            buf.push(bytes[i]);
            i = i + 1;
            assert(buf@ =~= start + bytes@.subrange(0, i as int));
        }
        assert(bytes@.subrange(0, bytes@.len() as int) =~= bytes@);
        Ok(bytes.len())
    }

    /// Removes a file or a symlink; a final symlink is removed itself, not
    /// what it points to.
    pub fn remove_file(&mut self, path: &AbsPath) -> (r: Result<(), ErrorKind>)
        requires
            old(self).wf(),
        ensures
            final(self).wf(),
            final(self)@.cwd == old(self)@.cwd,
            applied(r, remove_file_outcome(old(self)@.files, path@), old(self)@.files, final(self)@.files),
    {
        let q = self.resolve_path(path, false)?;
        match self.files.get(&q) {
            None => {
                return Err(ErrorKind::NotFound);
            },
            Some(Node::Dir(_)) => {
                return Err(ErrorKind::Other);
            },
            Some(_) => {},
        }
        proof {
            if q@.len() == 0 {
                assert(q@ =~= Seq::<Seq<char>>::empty());
            }
            lemma_nothing_below(self@.files, q@);
            lemma_remove_wf(self@.files, q@);
        }
        self.files.remove(&q);
        Ok(())
    }

    /// Copies the contents of the file at `from` to `to`.
    pub fn copy_file(&mut self, from: &AbsPath, to: &AbsPath) -> (r: Result<(), ErrorKind>)
        requires
            old(self).wf(),
        ensures
            final(self).wf(),
            final(self)@.cwd == old(self)@.cwd,
            applied(r, copy_file_outcome(old(self)@.files, from@, to@), old(self)@.files, final(self)@.files),
    {
        let fq = self.resolve_path(from, true)?;
        let tq = self.resolve_path(to, true)?;
        let bytes = match self.read_from(&fq) {
            Ok(bytes) => bytes,
            Err(e) => {
                if e == ErrorKind::IsADirectory {
                    return Err(ErrorKind::InvalidInput);
                } else {
                    return Err(e);
                }
            },
        };
        self.write_to(tq, bytes, true)
    }

    /// The stored target of a symlink, as it was written.
    pub fn read_link(&self, path: &AbsPath) -> (r: Result<String, ErrorKind>)
        requires
            self.wf(),
        ensures
            match read_link_result(self@.files, path@) {
                Ok(s) => r is Ok && r->Ok_0@ == s,
                Err(e) => r == Err::<String, ErrorKind>(e),
            },
    {
        let q = self.resolve_path(path, false)?;
        match self.files.get(&q) {
            None => Err(ErrorKind::NotFound),
            Some(Node::Symlink(link)) => Ok(link.source.clone()),
            Some(_) => Err(ErrorKind::InvalidInput),
        }
    }

    /// The permission bits of the entry at `path`.
    pub fn mode(&self, path: &AbsPath) -> (r: Result<u32, ErrorKind>)
        requires
            self.wf(),
        ensures
            r == mode_result(self@.files, path@),
    {
        let q = self.resolve_path(path, false)?;
        match self.files.get(&q) {
            None => Err(ErrorKind::NotFound),
            Some(node) => Ok(node.mode()),
        }
    }

    /// Whether the entry at `path` has every write bit cleared.
    pub fn readonly(&self, path: &AbsPath) -> (r: Result<bool, ErrorKind>)
        requires
            self.wf(),
        ensures
            match mode_result(self@.files, path@) {
                Ok(m) => r == Ok::<bool, ErrorKind>(m & 0o222 == 0),
                Err(e) => r == Err::<bool, ErrorKind>(e),
            },
    {
        let mode = self.mode(path)?;
        Ok(mode & WRITE_BITS == 0)
    }

    /// Replaces the permission bits of the entry at `path`.
    pub fn set_mode(&mut self, path: &AbsPath, mode: u32) -> (r: Result<(), ErrorKind>)
        requires
            old(self).wf(),
        ensures
            final(self).wf(),
            final(self)@.cwd == old(self)@.cwd,
            applied(r, set_mode_outcome(old(self)@.files, path@, mode), old(self)@.files, final(self)@.files),
    {
        let q = self.resolve_path(path, false)?;
        if !self.files.contains(&q) {
            return Err(ErrorKind::NotFound);
        }
        proof {
            let m = self@.files;
            lemma_replace_wf(m, q@, with_mode(m[q@], mode));
        }
        self.files.set_mode(&q, mode);
        Ok(())
    }

    /// Clears every write bit of the entry at `path`, or sets them all.
    pub fn set_readonly(&mut self, path: &AbsPath, readonly: bool) -> (r: Result<(), ErrorKind>)
        requires
            old(self).wf(),
        ensures
            final(self).wf(),
            final(self)@.cwd == old(self)@.cwd,
            applied(r, set_readonly_outcome(old(self)@.files, path@, readonly), old(self)@.files, final(self)@.files),
    {
        let mode = self.mode(path)?;
        let new_mode = if readonly {
            mode & !WRITE_BITS
        } else {
            mode | WRITE_BITS
        };
        self.set_mode(path, new_mode)
    }

    /// The size of the entry at `path`: a file's length, a fixed size for
    /// a directory or a symlink, zero where nothing is.
    pub fn len(&self, path: &AbsPath) -> (r: u64)
        requires
            self.wf(),
        ensures
            r == len_result(self@.files, path@),
    {
        let q = match self.resolve_path(path, false) {
            Ok(q) => q,
            Err(_) => {
                return 0;
            },
        };
        match self.files.get(&q) {
            None => 0,
            Some(Node::File(f)) => f.contents.len() as u64,
            Some(Node::Dir(_)) => DIR_LEN,
            Some(Node::Symlink(_)) => SYMLINK_LEN,
        }
    }

    /// The entry itself for a file or a directory, the end of its chain for
    /// a symlink.
    fn effective(&self, k: &AbsPath) -> (r: Result<AbsPath, ErrorKind>)
        requires
            self.wf(),
            self@.files.contains_key(k@),
        ensures
            res_view(r) == effective(self@.files, k@),
    {
        match self.files.get(k) {
            Some(Node::Symlink(_)) => self.recurse_symlink(k),
            _ => Ok(k.copy()),
        }
    }

    /// Whether the entry at `k` is a directory.
    fn holds_dir(&self, k: &AbsPath) -> (r: bool)
        requires
            self.wf(),
        ensures
            r == (self@.files.contains_key(k@) && self@.files[k@] is Dir),
    {
        match self.files.get(k) {
            Some(Node::Dir(_)) => true,
            _ => false,
        }
    }

    /// Moves the subtree at `f` to `t`, dropping what was at `t`.
    fn move_dir(&mut self, f: &AbsPath, t: AbsPath) -> (r: Result<(), ErrorKind>)
        requires
            old(self).wf(),
            old(self)@.files.contains_key(f@),
            !is_prefix(f@, t@),
            old(self)@.files.contains_key(t@) ==> !(old(self)@.files[t@] is Dir) || !has_below(
                old(self)@.files,
                t@,
            ),
        ensures
            final(self).wf(),
            final(self)@.cwd == old(self)@.cwd,
            applied(r, move_to(old(self)@.files, f@, t@), old(self)@.files, final(self)@.files),
    {
        let parent = match t.parent() {
            None => {
                return Err(ErrorKind::Other);
            },
            Some(parent) => parent,
        };
        match self.files.get(&parent) {
            Some(Node::Dir(d)) => {
                if d.mode & WRITE_BITS == 0 {
                    return Err(ErrorKind::PermissionDenied);
                }
            },
            _ => {
                return Err(ErrorKind::NotADirectory);
            },
        }
        proof {
            let m = self@.files;
            if m.contains_key(t@) && !(m[t@] is Dir) {
                lemma_nothing_below(m, t@);
            }
            lemma_moved_wf(m, f@, t@);
        }
        self.files.remove(&t);
        self.files.move_subtree(f, &t);
        Ok(())
    }

    /// Renames `from` to `to`, moving a directory with everything below it.
    /// A final symlink on either side is the entry that moves or is replaced,
    /// and counts as what its chain ends at.
    pub fn rename(&mut self, from: &AbsPath, to: &AbsPath) -> (r: Result<(), ErrorKind>)
        requires
            old(self).wf(),
        ensures
            final(self).wf(),
            final(self)@.cwd == old(self)@.cwd,
            applied(r, rename_outcome(old(self)@.files, from@, to@), old(self)@.files, final(self)@.files),
    {
        let f = match self.resolve_path(from, false) {
            Ok(f) => f,
            Err(_) => {
                return Err(ErrorKind::NotFound);
            },
        };
        let t = match self.resolve_path(to, false) {
            Ok(t) => t,
            Err(_) => {
                return Err(ErrorKind::NotFound);
            },
        };
        if !self.files.contains(&f) {
            return Err(ErrorKind::NotFound);
        }
        if f.same(&t) {
            return Ok(());
        }
        let below = f.is_prefix_of(&t);
        if !self.files.contains(&t) {
            if below {
                return Err(ErrorKind::InvalidInput);
            }
            return self.move_dir(&f, t);
        }
        let fe = match self.effective(&f) {
            Ok(fe) => fe,
            Err(e) => {
                return Err(e);
            },
        };
        let te = match self.effective(&t) {
            Ok(te) => te,
            Err(e) => {
                return Err(e);
            },
        };
        proof {
            let m = self@.files;
            if m[f@] is Symlink {
                lemma_link_ok(m, f@, Set::empty(), m.dom().len());
            }
            if m[t@] is Symlink {
                lemma_link_ok(m, t@, Set::empty(), m.dom().len());
            }
        }
        let f_dir = self.holds_dir(&fe);
        let t_dir = self.holds_dir(&te);
        if f_dir && t_dir {
            if self.files.any_below(&te) {
                Err(ErrorKind::Other)
            } else if below {
                Err(ErrorKind::InvalidInput)
            } else {
                self.move_dir(&f, t)
            }
        } else if f_dir {
            Err(ErrorKind::NotADirectory)
        } else if t_dir {
            Err(ErrorKind::IsADirectory)
        } else if below {
            Err(ErrorKind::InvalidInput)
        } else {
            self.move_dir(&f, t)
        }
    }
}

impl Node {
    /// Whether this node is a file, or a symlink whose target is one.
    pub fn is_file(&self, registry: &Registry) -> (r: bool)
        requires
            registry.wf(),
        ensures
            r == match self@ {
                NodeView::File { .. } => true,
                NodeView::Symlink { source, .. } => match target_of(source) {
                    Some(t) => is_file_at(registry@.files, t),
                    None => false,
                },
                _ => false,
            },
    {
        match self {
            Node::File(_) => true,
            Node::Symlink(link) => match target_path(link.source.as_str()) {
                Some(t) => registry.is_file(&t),
                None => false,
            },
            Node::Dir(_) => false,
        }
    }

    /// Whether this node is a directory, or a symlink whose target is one.
    pub fn is_dir(&self, registry: &Registry) -> (r: bool)
        requires
            registry.wf(),
        ensures
            r == match self@ {
                NodeView::Dir { .. } => true,
                NodeView::Symlink { source, .. } => match target_of(source) {
                    Some(t) => is_dir_at(registry@.files, t),
                    None => false,
                },
                _ => false,
            },
    {
        match self {
            Node::Dir(_) => true,
            Node::Symlink(link) => match target_path(link.source.as_str()) {
                Some(t) => registry.is_dir(&t),
                None => false,
            },
            Node::File(_) => false,
        }
    }
}

/// A vector holding the bytes of `b`.
pub fn bytes_of(b: &[u8]) -> (r: Vec<u8>)
    ensures
        r@ == b@,
{
    let mut r: Vec<u8> = Vec::new();
    let mut i: usize = 0;
    while i < b.len()
        invariant
            0 <= i <= b@.len(),
            r@ == b@.subrange(0, i as int),
        decreases b@.len() - i,
    {
        r.push(b[i]);
        i = i + 1;
    }
    assert(r@ =~= b@);
    r
}

} // verus!
