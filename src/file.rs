//! A simpler record of a file system entry, where a directory lists its
//! children and write protection is a single flag.

use vstd::prelude::*;

use crate::path::AbsPath;

verus! {

/// A file: its bytes and whether it is write-protected.
#[derive(Debug)]
pub struct File {
    pub contents: Vec<u8>,
    pub readonly: bool,
}

impl File {
    pub fn new(contents: Vec<u8>) -> (r: File)
        ensures
            r.contents@ == contents@,
            !r.readonly,
    {
        File { contents, readonly: false }
    }
}

/// A directory: the paths it holds and whether it is write-protected.
#[derive(Debug)]
pub struct Dir {
    pub children: Vec<AbsPath>,
    pub readonly: bool,
}

impl Dir {
    pub fn new() -> (r: Dir)
        ensures
            r.children@.len() == 0,
            !r.readonly,
    {
        Dir { children: Vec::new(), readonly: false }
    }
}

/// A file or a directory.
#[derive(Debug)]
pub enum FakeFile {
    File(File),
    Dir(Dir),
}

impl FakeFile {
    pub fn is_file(&self) -> (r: bool)
        ensures
            r == (self is File),
    {
        match self {
            FakeFile::File(_) => true,
            _ => false,
        }
    }

    pub fn is_dir(&self) -> (r: bool)
        ensures
            r == (self is Dir),
    {
        match self {
            FakeFile::Dir(_) => true,
            _ => false,
        }
    }
}

} // verus!
