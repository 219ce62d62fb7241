use vstd::prelude::*;

verus! {

/// The permission bits that a new node gets.
pub const DEFAULT_MODE: u32 = 0o644;

/// The write bits of owner, group and others.
pub const WRITE_BITS: u32 = 0o222;

/// The read bits of owner, group and others.
pub const READ_BITS: u32 = 0o444;

pub open spec fn writable(mode: u32) -> bool {
    mode & 0o222 != 0
}

pub open spec fn readable(mode: u32) -> bool {
    mode & 0o444 != 0
}

/// `mode` with every write bit cleared, or with every write bit set.
pub open spec fn readonly_mode(mode: u32, readonly: bool) -> u32 {
    if readonly {
        mode & !0o222u32
    } else {
        mode | 0o222u32
    }
}

/// What a node holds, as mathematical values.
pub enum NodeView {
    File { contents: Seq<u8>, mode: u32 },
    Dir { mode: u32 },
    Symlink { mode: u32, source: Seq<char> },
}

pub open spec fn mode_of(n: NodeView) -> u32 {
    match n {
        NodeView::File { mode, .. } => mode,
        NodeView::Dir { mode } => mode,
        NodeView::Symlink { mode, .. } => mode,
    }
}

pub open spec fn with_mode(n: NodeView, m: u32) -> NodeView {
    match n {
        NodeView::File { contents, .. } => NodeView::File { contents, mode: m },
        NodeView::Dir { .. } => NodeView::Dir { mode: m },
        NodeView::Symlink { source, .. } => NodeView::Symlink { mode: m, source },
    }
}

/// A regular file: its bytes and its permission bits.
#[derive(Debug)]
pub struct File {
    pub contents: Vec<u8>,
    pub mode: u32,
}

impl File {
    pub fn new(contents: Vec<u8>) -> (r: File)
        ensures
            r.contents@ == contents@,
            r.mode == DEFAULT_MODE,
    {
        File { contents, mode: DEFAULT_MODE }
    }
}

/// A directory. What it contains is found from the paths of the table.
#[derive(Debug)]
pub struct Dir {
    pub mode: u32,
}

impl Dir {
    pub fn new() -> (r: Dir)
        ensures
            r.mode == DEFAULT_MODE,
    {
        Dir { mode: DEFAULT_MODE }
    }
}

/// A symbolic link: the path it points to, kept as it was given.
#[derive(Debug)]
pub struct Symlink {
    pub mode: u32,
    pub source: String,
}

impl Symlink {
    pub fn new(source: String) -> (r: Symlink)
        ensures
            r.source@ == source@,
            r.mode == DEFAULT_MODE,
    {
        Symlink { mode: DEFAULT_MODE, source }
    }
}

/// One entry of the file system.
#[derive(Debug)]
pub enum Node {
    File(File),
    Dir(Dir),
    Symlink(Symlink),
}

impl View for Node {
    type V = NodeView;

    open spec fn view(&self) -> NodeView {
        match self {
            Node::File(f) => NodeView::File { contents: f.contents@, mode: f.mode },
            Node::Dir(d) => NodeView::Dir { mode: d.mode },
            Node::Symlink(l) => NodeView::Symlink { mode: l.mode, source: l.source@ },
        }
    }
}

pub fn copy_bytes(b: &Vec<u8>) -> (r: Vec<u8>)
    ensures
        r@ == b@,
{
    let mut r: Vec<u8> = Vec::new();
    let mut i: usize = 0;
    while i < b.len()
        invariant
            0 <= i <= b@.len(),
            r@ == b@.subrange(0, i as int),
        decreases b@.len() - i,
    {
        r.push(b[i]);
        i = i + 1;
    }
    assert(r@ =~= b@);
    r
}

impl Node {
    pub fn mode(&self) -> (r: u32)
        ensures
            r == mode_of(self@),
    {
        match self {
            Node::File(f) => f.mode,
            Node::Dir(d) => d.mode,
            Node::Symlink(l) => l.mode,
        }
    }

    /// The same node with other permission bits.
    pub fn with_mode(self, mode: u32) -> (r: Node)
        ensures
            r@ == with_mode(self@, mode),
    {
        match self {
            Node::File(f) => Node::File(File { contents: f.contents, mode }),
            Node::Dir(_) => Node::Dir(Dir { mode }),
            Node::Symlink(l) => Node::Symlink(Symlink { mode, source: l.source }),
        }
    }
}

} // verus!
