//! The file system as its users see it: paths are strings, and a relative
//! path is taken from the current directory.

use vstd::prelude::*;

use crate::error::ErrorKind;
use crate::model::{
    resolve,    applied, copy_file_outcome, create_dir_all_outcome, create_dir_outcome, create_file_outcome,
    dir_target, is_dir_at, is_file_at, len_result, mode_result, new_dir, overwrite_file_outcome,
    read_file_result, read_link_result, remove_dir_all_outcome, remove_dir_outcome,
    remove_file_outcome, rename_outcome, set_mode_outcome, set_readonly_outcome, symlink_outcome,
    write_file_outcome, FsMap,
};
use crate::path::{expand, expand_path, path_text, string_from_chars, AbsPath, PathModel};
use crate::registry::{Registry, RegistryModel};
use crate::table::child_paths;
use crate::tempdir::{is_suffix, temp_path, FakeTempDir};
use vstd::utf8::{encode_utf8, valid_utf8};

verus! {

/// Where relative paths start: the current directory while it still leads
/// to a directory, the root otherwise.
pub open spec fn base_dir(st: RegistryModel) -> PathModel {
    if dir_target(st.files, st.cwd) is Ok {
        st.cwd
    } else {
        Seq::empty()
    }
}

/// The absolute path that the string `s` names in the state `st`;
/// `InvalidInput` for a path with a `.` or `..` component.
pub open spec fn at(st: RegistryModel, s: Seq<char>) -> Result<PathModel, ErrorKind> {
    match expand(base_dir(st), s) {
        Some(p) => Ok(p),
        None => Err(ErrorKind::InvalidInput),
    }
}

/// A change made at the path that `s` names: `o` gives its outcome there.
pub open spec fn changed_at(
    r: Result<(), ErrorKind>,
    p: Result<PathModel, ErrorKind>,
    o: Result<FsMap, ErrorKind>,
    before: RegistryModel,
    after: RegistryModel,
) -> bool {
    &&& after.cwd == before.cwd
    &&& match p {
        Ok(_) => applied(r, o, before.files, after.files),
        Err(e) => r == Err::<(), ErrorKind>(e) && after.files == before.files,
    }
}

/// `v` holds, once each, the name of every entry directly inside `q`.
pub open spec fn names_of(v: Seq<String>, m: FsMap, q: PathModel) -> bool {
    &&& forall|name: Seq<char>|
        child_paths(m, q).contains(#[trigger] q.push(name)) <==> exists|i: int|
            0 <= i < v.len() && v[i]@ == name
    &&& forall|i: int, j: int| 0 <= i < v.len() && 0 <= j < v.len() && i != j ==> v[i]@ != v[j]@
}

/// An in-memory file system. Every operation takes `&self` or `&mut self`
/// for its whole duration; handles that share one file system wrap it in a
/// lock.
#[derive(Debug)]
pub struct FakeFileSystem {
    registry: Registry,
}

impl View for FakeFileSystem {
    type V = RegistryModel;

    closed spec fn view(&self) -> RegistryModel {
        self.registry@
    }
}

impl Default for FakeFileSystem {
    fn default() -> (r: FakeFileSystem)
        ensures
            r.wf(),
            r@.cwd == Seq::<Seq<char>>::empty(),
            r@.files == Map::<PathModel, crate::node::NodeView>::empty().insert(Seq::empty(), new_dir()),
    {
        FakeFileSystem::new()
    }
}

/// The absolute path that `path` names in `registry`.
fn apply(registry: &Registry, path: &str) -> (r: Result<AbsPath, ErrorKind>)
    requires
        registry.wf(),
    ensures
        match at(registry@, path@) {
            Ok(p) => r is Ok && r->Ok_0@ == p,
            Err(e) => r == Err::<AbsPath, ErrorKind>(e),
        },
{
    let base = match registry.current_dir() {
        Ok(cwd) => cwd,
        Err(_) => AbsPath::root(),
    };
    match expand_path(&base, path) {
        Some(p) => Ok(p),
        None => Err(ErrorKind::InvalidInput),
    }
}

impl FakeFileSystem {
    pub closed spec fn wf(&self) -> bool {
        self.registry.wf()
    }

    /// The map of a well-formed file system keeps the root and every parent.
    pub proof fn lemma_wf(&self)
        requires
            self.wf(),
        ensures
            crate::model::fs_wf(self@.files),
    {
        self.registry.lemma_wf();
    }

    /// A file system holding only the root directory, which is the current
    /// directory.
    pub fn new() -> (r: FakeFileSystem)
        ensures
            r.wf(),
            r@.cwd == Seq::<Seq<char>>::empty(),
            r@.files == Map::<PathModel, crate::node::NodeView>::empty().insert(Seq::empty(), new_dir()),
    {
        FakeFileSystem { registry: Registry::new() }
    }

    /// The two absolute paths that `from` and `to` name.
    fn apply_from_to(&self, from: &str, to: &str) -> (r: Result<(AbsPath, AbsPath), ErrorKind>)
        requires
            self.wf(),
        ensures
            match (at(self@, from@), at(self@, to@)) {
                (Ok(f), Ok(t)) => r is Ok && r->Ok_0.0@ == f && r->Ok_0.1@ == t,
                (Err(e), _) => r == Err::<(AbsPath, AbsPath), ErrorKind>(e),
                (Ok(_), Err(e)) => r == Err::<(AbsPath, AbsPath), ErrorKind>(e),
            },
    {
        let f = apply(&self.registry, from)?;
        let t = apply(&self.registry, to)?;
        Ok((f, t))
    }

    /// The text of the current directory, while it leads to a directory.
    pub fn current_dir(&self) -> (r: Result<String, ErrorKind>)
        requires
            self.wf(),
        ensures
            match dir_target(self@.files, self@.cwd) {
                Ok(_) => r is Ok && r->Ok_0@ == path_text(self@.cwd),
                Err(e) => r == Err::<String, ErrorKind>(e),
            },
    {
        let cwd = self.registry.current_dir()?;
        Ok(cwd.to_path_string())
    }

    /// Makes the path that `path` names the current directory, if it leads
    /// to a directory; the path is kept as named.
    pub fn set_current_dir(&mut self, path: &str) -> (r: Result<(), ErrorKind>)
        requires
            old(self).wf(),
        ensures
            final(self).wf(),
            final(self)@.files == old(self)@.files,
            match at(old(self)@, path@) {
                Ok(p) => match dir_target(old(self)@.files, p) {
                    Ok(_) => r is Ok && final(self)@.cwd == p,
                    Err(e) => r == Err::<(), ErrorKind>(e) && final(self)@.cwd == old(self)@.cwd,
                },
                Err(e) => r == Err::<(), ErrorKind>(e) && final(self)@.cwd == old(self)@.cwd,
            },
    {
        let p = apply(&self.registry, path)?;
        self.registry.set_current_dir(&p)
    }

    pub fn is_dir(&self, path: &str) -> (r: bool)
        requires
            self.wf(),
        ensures
            r == match at(self@, path@) {
                Ok(p) => is_dir_at(self@.files, p),
                Err(_) => false,
            },
    {
        match apply(&self.registry, path) {
            Ok(p) => self.registry.is_dir(&p),
            Err(_) => false,
        }
    }

    pub fn is_file(&self, path: &str) -> (r: bool)
        requires
            self.wf(),
        ensures
            r == match at(self@, path@) {
                Ok(p) => is_file_at(self@.files, p),
                Err(_) => false,
            },
    {
        match apply(&self.registry, path) {
            Ok(p) => self.registry.is_file(&p),
            Err(_) => false,
        }
    }

    pub fn create_dir(&mut self, path: &str) -> (r: Result<(), ErrorKind>)
        requires
            old(self).wf(),
        ensures
            final(self).wf(),
            changed_at(r, at(old(self)@, path@), create_dir_outcome(old(self)@.files, at(old(self)@, path@)->Ok_0), old(self)@, final(self)@),
    {
        let p = apply(&self.registry, path)?;
        self.registry.create_dir(&p)
    }

    pub fn create_dir_all(&mut self, path: &str) -> (r: Result<(), ErrorKind>)
        requires
            old(self).wf(),
        ensures
            final(self).wf(),
            final(self)@.cwd == old(self)@.cwd,
            match at(old(self)@, path@) {
                Ok(p) => (r, final(self)@.files) == create_dir_all_outcome(old(self)@.files, p),
                Err(e) => r == Err::<(), ErrorKind>(e) && final(self)@.files == old(self)@.files,
            },
    {
        let p = apply(&self.registry, path)?;
        self.registry.create_dir_all(&p)
    }

    pub fn remove_dir(&mut self, path: &str) -> (r: Result<(), ErrorKind>)
        requires
            old(self).wf(),
        ensures
            final(self).wf(),
            changed_at(r, at(old(self)@, path@), remove_dir_outcome(old(self)@.files, at(old(self)@, path@)->Ok_0), old(self)@, final(self)@),
    {
        let p = apply(&self.registry, path)?;
        self.registry.remove_dir(&p)
    }

    pub fn remove_dir_all(&mut self, path: &str) -> (r: Result<(), ErrorKind>)
        requires
            old(self).wf(),
        ensures
            final(self).wf(),
            changed_at(r, at(old(self)@, path@), remove_dir_all_outcome(old(self)@.files, at(old(self)@, path@)->Ok_0), old(self)@, final(self)@),
    {
        let p = apply(&self.registry, path)?;
        self.registry.remove_dir_all(&p)
    }

    /// The names of the entries directly inside the directory that `path`
    /// leads to, in no particular order.
    pub fn read_dir(&self, path: &str) -> (r: Result<Vec<String>, ErrorKind>)
        requires
            self.wf(),
        ensures
            match at(self@, path@) {
                Ok(p) => match dir_target(self@.files, p) {
                    Ok(q) => r is Ok && names_of(r->Ok_0@, self@.files, q),
                    Err(e) => r == Err::<Vec<String>, ErrorKind>(e),
                },
                Err(e) => r == Err::<Vec<String>, ErrorKind>(e),
            },
    {
        let p = apply(&self.registry, path)?;
        let q = self.registry.dir_target(&p)?;
        let children = self.registry.children(&q);
        let ghost m = self@.files;
        let mut names: Vec<String> = Vec::new();
        let mut i: usize = 0;
        while i < children.len()
            invariant
                0 <= i <= children@.len(),
                names@.len() == i,
                read_dir_ok(m, q@, children@),
                forall|a: int| 0 <= a < i ==> q@.push(#[trigger] names@[a]@) == children@[a]@,
            decreases children@.len() - i,
        {
            let child = &children[i];
            proof {
                assert(child_paths(m, q@).contains(child@)) by {
                    assert(children@[i as int]@ == child@);
                }
            }
            let last = child.len() - 1;
            let name = string_from_chars(&child.comps[last]);
            proof {
                assert(child@[last as int] == child.comps@[last as int]@);
                assert(q@.push(name@) =~= child@);
            }
            names.push(name);
            i = i + 1;
        }
        proof {
            assert forall|name: Seq<char>|
                child_paths(m, q@).contains(#[trigger] q@.push(name)) <==> exists|i: int|
                    0 <= i < names@.len() && names@[i]@ == name by {
                if child_paths(m, q@).contains(q@.push(name)) {
                    let i = choose|i: int| 0 <= i < children@.len() && #[trigger] children@[i]@ == q@.push(name);
                    assert(q@.push(names@[i]@) == q@.push(name));
                    assert(names@[i]@ == q@.push(names@[i]@).last());
                }
                if exists|i: int| 0 <= i < names@.len() && names@[i]@ == name {
                    let i = choose|i: int| 0 <= i < names@.len() && names@[i]@ == name;
                    assert(children@[i]@ == q@.push(name));
                }
            }
            assert forall|a: int, b: int|
                0 <= a < names@.len() && 0 <= b < names@.len() && a != b implies names@[a]@ != names@[b]@ by {
                assert(children@[a]@ != children@[b]@);
            }
        }
        Ok(names)
    }

    pub fn create_file(&mut self, path: &str, buf: &[u8]) -> (r: Result<(), ErrorKind>)
        requires
            old(self).wf(),
        ensures
            final(self).wf(),
            changed_at(r, at(old(self)@, path@), create_file_outcome(old(self)@.files, at(old(self)@, path@)->Ok_0, buf@), old(self)@, final(self)@),
    {
        let p = apply(&self.registry, path)?;
        self.registry.create_file(&p, buf)
    }

    pub fn write_file(&mut self, path: &str, buf: &[u8]) -> (r: Result<(), ErrorKind>)
        requires
            old(self).wf(),
        ensures
            final(self).wf(),
            changed_at(r, at(old(self)@, path@), write_file_outcome(old(self)@.files, at(old(self)@, path@)->Ok_0, buf@), old(self)@, final(self)@),
    {
        let p = apply(&self.registry, path)?;
        self.registry.write_file(&p, buf)
    }

    pub fn overwrite_file(&mut self, path: &str, buf: &[u8]) -> (r: Result<(), ErrorKind>)
        requires
            old(self).wf(),
        ensures
            final(self).wf(),
            changed_at(r, at(old(self)@, path@), overwrite_file_outcome(old(self)@.files, at(old(self)@, path@)->Ok_0, buf@), old(self)@, final(self)@),
    {
        let p = apply(&self.registry, path)?;
        self.registry.overwrite_file(&p, buf)
    }

    pub fn read_file(&self, path: &str) -> (r: Result<Vec<u8>, ErrorKind>)
        requires
            self.wf(),
        ensures
            match at(self@, path@) {
                Ok(p) => crate::registry::bytes_view(r) == read_file_result(self@.files, p),
                Err(e) => r == Err::<Vec<u8>, ErrorKind>(e),
            },
    {
        let p = apply(&self.registry, path)?;
        self.registry.read_file(&p)
    }

    pub fn read_file_to_string(&self, path: &str) -> (r: Result<String, ErrorKind>)
        requires
            self.wf(),
        ensures
            match at(self@, path@) {
                Ok(p) => match read_file_result(self@.files, p) {
                    Ok(b) => if valid_utf8(b) {
                        r is Ok && encode_utf8(r->Ok_0@) == b
                    } else {
                        r == Err::<String, ErrorKind>(ErrorKind::InvalidData)
                    },
                    Err(e) => r == Err::<String, ErrorKind>(e),
                },
                Err(e) => r == Err::<String, ErrorKind>(e),
            },
    {
        let p = apply(&self.registry, path)?;
        self.registry.read_file_to_string(&p)
    }

    pub fn read_file_into(&self, path: &str, buf: &mut Vec<u8>) -> (r: Result<usize, ErrorKind>)
        requires
            self.wf(),
        ensures
            match at(self@, path@) {
                Ok(p) => match read_file_result(self@.files, p) {
                    Ok(b) => r == Ok::<usize, ErrorKind>(b.len() as usize) && final(buf)@ == old(buf)@ + b,
                    Err(e) => r == Err::<usize, ErrorKind>(e) && final(buf)@ == old(buf)@,
                },
                Err(e) => r == Err::<usize, ErrorKind>(e) && final(buf)@ == old(buf)@,
            },
    {
        let p = apply(&self.registry, path)?;
        self.registry.read_file_into(&p, buf)
    }

    pub fn remove_file(&mut self, path: &str) -> (r: Result<(), ErrorKind>)
        requires
            old(self).wf(),
        ensures
            final(self).wf(),
            changed_at(r, at(old(self)@, path@), remove_file_outcome(old(self)@.files, at(old(self)@, path@)->Ok_0), old(self)@, final(self)@),
    {
        let p = apply(&self.registry, path)?;
        self.registry.remove_file(&p)
    }

    pub fn copy_file(&mut self, from: &str, to: &str) -> (r: Result<(), ErrorKind>)
        requires
            old(self).wf(),
        ensures
            final(self).wf(),
            final(self)@.cwd == old(self)@.cwd,
            match (at(old(self)@, from@), at(old(self)@, to@)) {
                (Ok(f), Ok(t)) => applied(r, copy_file_outcome(old(self)@.files, f, t), old(self)@.files, final(self)@.files),
                (Err(e), _) => r == Err::<(), ErrorKind>(e) && final(self)@.files == old(self)@.files,
                (Ok(_), Err(e)) => r == Err::<(), ErrorKind>(e) && final(self)@.files == old(self)@.files,
            },
    {
        let (f, t) = self.apply_from_to(from, to)?;
        self.registry.copy_file(&f, &t)
    }

    pub fn rename(&mut self, from: &str, to: &str) -> (r: Result<(), ErrorKind>)
        requires
            old(self).wf(),
        ensures
            final(self).wf(),
            final(self)@.cwd == old(self)@.cwd,
            match (at(old(self)@, from@), at(old(self)@, to@)) {
                (Ok(f), Ok(t)) => applied(r, rename_outcome(old(self)@.files, f, t), old(self)@.files, final(self)@.files),
                (Err(e), _) => r == Err::<(), ErrorKind>(e) && final(self)@.files == old(self)@.files,
                (Ok(_), Err(e)) => r == Err::<(), ErrorKind>(e) && final(self)@.files == old(self)@.files,
            },
    {
        let (f, t) = self.apply_from_to(from, to)?;
        self.registry.rename(&f, &t)
    }

    pub fn readonly(&self, path: &str) -> (r: Result<bool, ErrorKind>)
        requires
            self.wf(),
        ensures
            match at(self@, path@) {
                Ok(p) => match mode_result(self@.files, p) {
                    Ok(m) => r == Ok::<bool, ErrorKind>(m & 0o222 == 0),
                    Err(e) => r == Err::<bool, ErrorKind>(e),
                },
                Err(e) => r == Err::<bool, ErrorKind>(e),
            },
    {
        let p = apply(&self.registry, path)?;
        self.registry.readonly(&p)
    }

    pub fn set_readonly(&mut self, path: &str, readonly: bool) -> (r: Result<(), ErrorKind>)
        requires
            old(self).wf(),
        ensures
            final(self).wf(),
            changed_at(r, at(old(self)@, path@), set_readonly_outcome(old(self)@.files, at(old(self)@, path@)->Ok_0, readonly), old(self)@, final(self)@),
    {
        let p = apply(&self.registry, path)?;
        self.registry.set_readonly(&p, readonly)
    }

    pub fn mode(&self, path: &str) -> (r: Result<u32, ErrorKind>)
        requires
            self.wf(),
        ensures
            match at(self@, path@) {
                Ok(p) => r == mode_result(self@.files, p),
                Err(e) => r == Err::<u32, ErrorKind>(e),
            },
    {
        let p = apply(&self.registry, path)?;
        self.registry.mode(&p)
    }

    pub fn set_mode(&mut self, path: &str, mode: u32) -> (r: Result<(), ErrorKind>)
        requires
            old(self).wf(),
        ensures
            final(self).wf(),
            changed_at(r, at(old(self)@, path@), set_mode_outcome(old(self)@.files, at(old(self)@, path@)->Ok_0, mode), old(self)@, final(self)@),
    {
        let p = apply(&self.registry, path)?;
        self.registry.set_mode(&p, mode)
    }

    pub fn len(&self, path: &str) -> (r: u64)
        requires
            self.wf(),
        ensures
            r == match at(self@, path@) {
                Ok(p) => len_result(self@.files, p),
                Err(_) => 0,
            },
    {
        match apply(&self.registry, path) {
            Ok(p) => self.registry.len(&p),
            Err(_) => 0,
        }
    }

    /// Creates at `dst` a symlink to `src`; `src` is kept as written.
    pub fn symlink(&mut self, src: &str, dst: &str) -> (r: Result<(), ErrorKind>)
        requires
            old(self).wf(),
        ensures
            final(self).wf(),
            changed_at(r, at(old(self)@, dst@), symlink_outcome(old(self)@.files, src@, at(old(self)@, dst@)->Ok_0), old(self)@, final(self)@),
    {
        let p = apply(&self.registry, dst)?;
        self.registry.symlink(src, &p)
    }

    /// Makes a new scratch directory `<base>/<prefix>/<prefix>_<suffix>`
    /// for a random suffix: its parents as `create_dir_all` does, then the
    /// directory itself as `create_dir` does, so that it is always new. The
    /// handle holds where the directory is, its path resolved.
    pub fn temp_dir(&mut self, base: &str, prefix: &str) -> (r: Result<FakeTempDir, ErrorKind>)
        requires
            old(self).wf(),
        ensures
            final(self).wf(),
            final(self)@.cwd == old(self)@.cwd,
            match at(old(self)@, base@) {
                Ok(b) => exists|s: Seq<char>|
                    is_suffix(s) && {
                        let p = temp_path(b, prefix@, s);
                        let (made, after) = create_dir_all_outcome(old(self)@.files, p.drop_last());
                        match made {
                            Err(e) => r == Err::<FakeTempDir, ErrorKind>(e) && final(self)@.files == after,
                            Ok(_) => match create_dir_outcome(after, p) {
                                Ok(m3) => r is Ok && final(self)@.files == m3
                                    && r->Ok_0.path_view() == resolve(after, p, false)->Ok_0,
                                Err(e) => r == Err::<FakeTempDir, ErrorKind>(e) && final(self)@.files == after,
                            },
                        }
                    },
                Err(e) => r == Err::<FakeTempDir, ErrorKind>(e) && final(self)@.files == old(self)@.files,
            },
            r is Ok ==> !old(self)@.files.contains_key(r->Ok_0.path_view()) && final(self)@.files.contains_key(
                r->Ok_0.path_view(),
            ),
    {
        let b = match apply(&self.registry, base) {
            Ok(b) => b,
            Err(e) => {
                return Err(e);
            },
        };
        let dir = FakeTempDir::new(&b, prefix);
        let ghost s = choose|s: Seq<char>| is_suffix(s) && dir.path_view() == temp_path(b@, prefix@, s);
        let parent = match dir.path().parent() {
            Some(parent) => parent,
            None => {
                return Err(ErrorKind::Other);
            },
        };
        let ghost m0 = self@.files;
        match self.registry.create_dir_all(&parent) {
            Ok(()) => {},
            Err(e) => {
                return Err(e);
            },
        }
        proof {
            crate::model::lemma_create_dir_all_grows(m0, parent@);
        }
        match self.registry.make_dir(dir.path()) {
            Ok(q) => Ok(FakeTempDir::made_at(q)),
            Err(e) => Err(e),
        }
    }

    /// Opens a readable file for reading in steps.
    pub fn open(&self, path: &str) -> (r: Result<FakeOpenFile, ErrorKind>)
        requires
            self.wf(),
        ensures
            match at(self@, path@) {
                Ok(p) => match read_file_result(self@.files, p) {
                    Ok(_) => r is Ok && r->Ok_0.file_path() == p && r->Ok_0.position() == 0,
                    Err(e) => r == Err::<FakeOpenFile, ErrorKind>(e),
                },
                Err(e) => r == Err::<FakeOpenFile, ErrorKind>(e),
            },
    {
        FakeOpenFile::try_new(self, path)
    }

    pub fn read_link(&self, path: &str) -> (r: Result<String, ErrorKind>)
        requires
            self.wf(),
        ensures
            match at(self@, path@) {
                Ok(p) => match read_link_result(self@.files, p) {
                    Ok(s) => r is Ok && r->Ok_0@ == s,
                    Err(e) => r == Err::<String, ErrorKind>(e),
                },
                Err(e) => r == Err::<String, ErrorKind>(e),
            },
    {
        let p = apply(&self.registry, path)?;
        self.registry.read_link(&p)
    }
}

/// The bytes that a read of at most `max` bytes at `offset` gets from `b`.
pub open spec fn chunk(b: Seq<u8>, offset: nat, max: nat) -> Seq<u8> {
    if offset < b.len() {
        if max < b.len() - offset {
            b.subrange(offset as int, (offset + max) as int)
        } else {
            b.subrange(offset as int, b.len() as int)
        }
    } else {
        Seq::empty()
    }
}

/// A file opened for reading from the start: each read takes the file's
/// contents as they are at that moment.
#[derive(Debug)]
pub struct FakeOpenFile {
    path: AbsPath,
    offset: usize,
}

impl FakeOpenFile {
    /// The absolute path of the opened file.
    pub closed spec fn file_path(&self) -> PathModel {
        self.path@
    }

    /// How many bytes were read so far.
    pub closed spec fn position(&self) -> nat {
        self.offset as nat
    }

    pub fn offset(&self) -> (r: usize)
        ensures
            r == self.position(),
    {
        self.offset
    }

    /// Opens the file that `path` leads to, which must be readable.
    pub fn try_new(fs: &FakeFileSystem, path: &str) -> (r: Result<FakeOpenFile, ErrorKind>)
        requires
            fs.wf(),
        ensures
            match at(fs@, path@) {
                Ok(p) => match read_file_result(fs@.files, p) {
                    Ok(_) => r is Ok && r->Ok_0.file_path() == p && r->Ok_0.position() == 0,
                    Err(e) => r == Err::<FakeOpenFile, ErrorKind>(e),
                },
                Err(e) => r == Err::<FakeOpenFile, ErrorKind>(e),
            },
    {
        let p = apply(&fs.registry, path)?;
        match fs.registry.read_file(&p) {
            Ok(_) => Ok(FakeOpenFile { path: p, offset: 0 }),
            Err(e) => Err(e),
        }
    }

    /// Reads at most `max` bytes from where the last read stopped. A file
    /// that shrank below that point gives no bytes.
    pub fn read(&mut self, fs: &FakeFileSystem, max: usize) -> (r: Result<Vec<u8>, ErrorKind>)
        requires
            fs.wf(),
        ensures
            final(self).file_path() == old(self).file_path(),
            match read_file_result(fs@.files, old(self).file_path()) {
                Ok(b) => r is Ok && r->Ok_0@ == chunk(b, old(self).position(), max as nat)
                    && final(self).position() == old(self).position() + r->Ok_0@.len(),
                Err(e) => r == Err::<Vec<u8>, ErrorKind>(e) && final(self).position() == old(self).position(),
            },
    {
        let contents = fs.registry.read_file(&self.path)?;
        let ofs = self.offset;
        if ofs >= contents.len() {
            return Ok(Vec::new());
        }
        let rest = contents.len() - ofs;
        let n = if max < rest {
            max
        } else {
            rest
        };
        let mut out: Vec<u8> = Vec::new();
        let mut i: usize = 0;
        while i < n
            invariant
                n <= contents@.len() - ofs,
                ofs < contents@.len(),
                contents@.len() <= usize::MAX,
                0 <= i <= n,
                out@ == contents@.subrange(ofs as int, ofs + i),
            decreases n - i,
        {
            out.push(contents[ofs + i]);
            i = i + 1;
            assert(out@ =~= contents@.subrange(ofs as int, ofs + i));
        }
        self.offset = ofs + n;
        Ok(out)
    }
}

/// `children` lists the entries directly inside `q`.
pub open spec fn read_dir_ok(m: FsMap, q: PathModel, children: Seq<AbsPath>) -> bool {
    crate::registry::lists(children, child_paths(m, q))
}

} // verus!
