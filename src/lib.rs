//! An in-memory file system with POSIX-like semantics: directories, files,
//! symbolic links and permission bits, kept in one flat table keyed by
//! absolute path.

pub mod error;
pub mod fake;
pub mod file;
pub mod laws;
pub mod model;
pub mod node;
pub mod path;
pub mod registry;
pub mod table;
pub mod tempdir;
pub mod wf;

pub use error::ErrorKind;
pub use fake::{FakeFileSystem, FakeOpenFile};
pub use path::AbsPath;
pub use registry::Registry;
pub use tempdir::FakeTempDir;
