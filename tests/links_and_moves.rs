use filesystem::file::FakeFile;
use filesystem::node::Node;
use filesystem::path::AbsPath;
use filesystem::{ErrorKind, FakeFileSystem, FakeTempDir, Registry};

#[test]
fn symlink_round_trip() {
    let mut fs = FakeFileSystem::new();
    fs.create_file("/target", b"data").unwrap();
    assert_eq!(fs.symlink("/target", "/link"), Ok(()));
    assert_eq!(fs.read_link("/link"), Ok("/target".to_string()));
    assert!(fs.is_file("/link"));
    assert!(!fs.is_dir("/link"));
    assert_eq!(fs.read_file("/link"), Ok(b"data".to_vec()));
    fs.remove_file("/target").unwrap();
    assert!(!fs.is_file("/link"));
    assert_eq!(fs.read_link("/link"), Ok("/target".to_string()));
}

#[test]
fn broken_symlink_is_neither_file_nor_dir() {
    let mut fs = FakeFileSystem::new();
    fs.symlink("/missing", "/link").unwrap();
    assert!(!fs.is_file("/link"));
    assert!(!fs.is_dir("/link"));
    assert_eq!(fs.read_file("/link"), Err(ErrorKind::NotFound));
}

#[test]
fn symlink_keeps_its_text_verbatim() {
    let mut fs = FakeFileSystem::new();
    fs.symlink("relative/../odd", "/link").unwrap();
    assert_eq!(fs.read_link("/link"), Ok("relative/../odd".to_string()));
    assert_eq!(fs.read_file("/link"), Err(ErrorKind::NotFound));
}

#[test]
fn symlink_fails_if_something_already_exists() {
    let mut fs = FakeFileSystem::new();
    fs.create_dir("/parent").unwrap();
    fs.create_dir("/parent/dir").unwrap();
    fs.create_file("/parent/file", b"").unwrap();
    fs.symlink("/parent/dir", "/parent/symlink_dir").unwrap();
    fs.symlink("/parent/file", "/parent/symlink_file").unwrap();
    fs.symlink("/parent/404", "/parent/symlink_broken").unwrap();
    let used = [
        "/parent/file",
        "/parent/dir",
        "/parent/symlink_dir",
        "/parent/symlink_broken",
        "/parent/symlink_file",
    ];
    for path in used.iter() {
        assert_eq!(fs.symlink("/parent/dummy", path), Err(ErrorKind::AlreadyExists), "{}", path);
    }
}

#[test]
fn read_link_fails_on_plain_entries() {
    let mut fs = FakeFileSystem::new();
    fs.create_file("/f", b"").unwrap();
    assert_eq!(fs.read_link("/f"), Err(ErrorKind::InvalidInput));
    assert_eq!(fs.read_link("/none"), Err(ErrorKind::NotFound));
}

#[test]
fn symlink_cycle_fails_with_other() {
    let mut fs = FakeFileSystem::new();
    fs.symlink("/b", "/a").unwrap();
    fs.symlink("/a", "/b").unwrap();
    assert_eq!(fs.read_file("/a"), Err(ErrorKind::Other));
    assert!(!fs.is_file("/a"));
}

#[test]
fn link_target_is_resolved_through_other_links() {
    let mut fs = FakeFileSystem::new();
    fs.create_dir("/d").unwrap();
    fs.create_file("/d/x", b"deep").unwrap();
    fs.symlink("/d", "/l2").unwrap();
    fs.symlink("/l2/x", "/L").unwrap();
    assert!(fs.is_file("/l2/x"));
    assert!(fs.is_file("/L"));
    assert_eq!(fs.read_file("/L"), Ok(b"deep".to_vec()));
    fs.symlink("/l2", "/dl").unwrap();
    assert!(fs.is_dir("/dl"));
    assert_eq!(fs.read_dir("/dl"), Ok(vec!["x".to_string()]));
}

#[test]
fn dir_symlink_is_walked_through() {
    let mut fs = FakeFileSystem::new();
    fs.create_dir("/real").unwrap();
    fs.symlink("/real", "/alias").unwrap();
    assert!(fs.is_dir("/alias"));
    fs.create_file("/alias/f", b"inside").unwrap();
    assert_eq!(fs.read_file("/real/f"), Ok(b"inside".to_vec()));
    fs.create_dir("/alias/sub").unwrap();
    assert!(fs.is_dir("/real/sub"));
    assert_eq!(fs.remove_dir("/alias/sub"), Ok(()));
    assert!(!fs.is_dir("/real/sub"));
    assert_eq!(fs.set_current_dir("/alias"), Ok(()));
    assert_eq!(fs.current_dir(), Ok("/alias".to_string()));
    fs.create_file("rel", b"r").unwrap();
    assert_eq!(fs.read_file("/real/rel"), Ok(b"r".to_vec()));
}

#[test]
fn remove_file_deletes_only_the_link() {
    let mut fs = FakeFileSystem::new();
    fs.create_dir("/d").unwrap();
    fs.symlink("/d", "/l").unwrap();
    assert_eq!(fs.remove_dir("/l"), Err(ErrorKind::NotADirectory));
    assert_eq!(fs.remove_file("/l"), Ok(()));
    assert!(fs.is_dir("/d"));
}

#[test]
fn set_current_dir_fails_if_node_is_broken_symlink() {
    let mut fs = FakeFileSystem::new();
    fs.symlink("/file", "/file_link").unwrap();
    assert_eq!(fs.set_current_dir("/file_link"), Err(ErrorKind::NotFound));
}

#[test]
fn rename_moves_a_file() {
    let mut fs = FakeFileSystem::new();
    fs.create_file("/a", b"1").unwrap();
    assert_eq!(fs.rename("/a", "/b"), Ok(()));
    assert!(!fs.is_file("/a"));
    assert_eq!(fs.read_file("/b"), Ok(b"1".to_vec()));
}

#[test]
fn rename_replaces_a_file() {
    let mut fs = FakeFileSystem::new();
    fs.create_file("/a", b"1").unwrap();
    fs.create_file("/b", b"2").unwrap();
    assert_eq!(fs.rename("/a", "/b"), Ok(()));
    assert_eq!(fs.read_file("/b"), Ok(b"1".to_vec()));
    assert_eq!(fs.read_dir("/").unwrap(), vec!["b".to_string()]);
}

#[test]
fn rename_moves_a_dir_with_its_contents() {
    let mut fs = FakeFileSystem::new();
    fs.create_dir_all("/a/b").unwrap();
    fs.create_file("/a/b/f", b"deep").unwrap();
    assert_eq!(fs.rename("/a", "/z"), Ok(()));
    assert!(!fs.is_dir("/a"));
    assert!(fs.is_dir("/z/b"));
    assert_eq!(fs.read_file("/z/b/f"), Ok(b"deep".to_vec()));
}

#[test]
fn rename_onto_empty_dir_replaces_it() {
    let mut fs = FakeFileSystem::new();
    fs.create_dir_all("/a/x").unwrap();
    fs.create_dir("/b").unwrap();
    assert_eq!(fs.rename("/a", "/b"), Ok(()));
    assert!(fs.is_dir("/b/x"));
    assert!(!fs.is_dir("/a"));
}

#[test]
fn rename_onto_nonempty_dir_fails_and_changes_nothing() {
    let mut fs = FakeFileSystem::new();
    fs.create_dir_all("/a/x").unwrap();
    fs.create_dir_all("/b/y").unwrap();
    assert_eq!(fs.rename("/a", "/b"), Err(ErrorKind::Other));
    assert!(fs.is_dir("/a/x"));
    assert!(fs.is_dir("/b/y"));
    assert!(!fs.is_dir("/b/x"));
}

#[test]
fn rename_kind_mismatches_fail() {
    let mut fs = FakeFileSystem::new();
    fs.create_dir("/d").unwrap();
    fs.create_file("/f", b"").unwrap();
    assert_eq!(fs.rename("/f", "/d"), Err(ErrorKind::IsADirectory));
    assert_eq!(fs.rename("/d", "/f"), Err(ErrorKind::NotADirectory));
    assert_eq!(fs.rename("/missing", "/x"), Err(ErrorKind::NotFound));
    assert_eq!(fs.rename("/d", "/d/inner"), Err(ErrorKind::InvalidInput));
    fs.create_file("/d/g", b"").unwrap();
    assert_eq!(fs.rename("/d", "/d/g"), Err(ErrorKind::NotADirectory));
    assert!(fs.is_file("/d/g"));
    assert_eq!(fs.rename("/f", "/f"), Ok(()));
    assert!(fs.is_file("/f"));
}

#[test]
fn rename_renames_a_symlink() {
    let mut fs = FakeFileSystem::new();
    fs.create_dir("/t").unwrap();
    fs.symlink("/t/some_file", "/t/from").unwrap();
    assert_eq!(fs.rename("/t/from", "/t/to"), Ok(()));
    assert_eq!(fs.read_dir("/t"), Ok(vec!["to".to_string()]));
    assert_eq!(fs.read_link("/t/to"), Ok("/t/some_file".to_string()));
}

#[test]
fn copy_file_copies_contents() {
    let mut fs = FakeFileSystem::new();
    fs.create_file("/a", b"copy me").unwrap();
    assert_eq!(fs.copy_file("/a", "/b"), Ok(()));
    assert_eq!(fs.read_file("/b"), Ok(b"copy me".to_vec()));
    fs.create_file("/c", b"old").unwrap();
    assert_eq!(fs.copy_file("/a", "/c"), Ok(()));
    assert_eq!(fs.read_file("/c"), Ok(b"copy me".to_vec()));
}

#[test]
fn copy_file_errors() {
    let mut fs = FakeFileSystem::new();
    fs.create_file("/a", b"x").unwrap();
    fs.create_dir("/d").unwrap();
    assert_eq!(fs.copy_file("/a", "/d"), Err(ErrorKind::IsADirectory));
    assert_eq!(fs.copy_file("/d", "/e"), Err(ErrorKind::InvalidInput));
    assert_eq!(fs.copy_file("/missing", "/e"), Err(ErrorKind::NotFound));
    fs.create_file("/t", b"").unwrap();
    fs.set_mode("/t", 644).unwrap();
    assert_eq!(fs.copy_file("/a", "/t"), Ok(()));
    assert_eq!(fs.read_file("/t"), Ok(b"x".to_vec()));
    fs.set_readonly("/t", true).unwrap();
    assert_eq!(fs.copy_file("/a", "/t"), Err(ErrorKind::PermissionDenied));
}

#[test]
fn copy_file_fails_if_source_is_broken_symlink() {
    let mut fs = FakeFileSystem::new();
    fs.symlink("/nothing", "/l").unwrap();
    assert_eq!(fs.copy_file("/l", "/b"), Err(ErrorKind::NotFound));
}

#[test]
fn open_file_reads_in_steps() {
    let mut fs = FakeFileSystem::new();
    fs.create_file("/f", b"abcdef").unwrap();
    let mut file = fs.open("/f").unwrap();
    assert_eq!(file.read(&fs, 4), Ok(b"abcd".to_vec()));
    assert_eq!(file.offset(), 4);
    assert_eq!(file.read(&fs, 4), Ok(b"ef".to_vec()));
    assert_eq!(file.read(&fs, 4), Ok(Vec::new()));
    fs.write_file("/f", b"ab").unwrap();
    assert_eq!(file.read(&fs, 4), Ok(Vec::new()));
    assert!(fs.open("/missing").is_err());
}

#[test]
fn open_file_sees_later_writes() {
    let mut fs = FakeFileSystem::new();
    fs.create_file("/f", b"12").unwrap();
    let mut file = fs.open("/f").unwrap();
    assert_eq!(file.read(&fs, 1), Ok(b"1".to_vec()));
    fs.write_file("/f", b"1xyz").unwrap();
    assert_eq!(file.read(&fs, 10), Ok(b"xyz".to_vec()));
}

#[test]
fn temp_dir_creates_tempdir() {
    let mut fs = FakeFileSystem::new();
    let dir = fs.temp_dir("/tmp", "test").unwrap();
    let text = dir.path().to_path_string();
    assert!(text.starts_with("/tmp/test/test_"));
    let suffix = &text["/tmp/test/test_".len()..];
    assert_eq!(suffix.len(), 10);
    assert!(suffix.chars().all(|c| c.is_ascii_alphanumeric()));
    assert!(fs.is_dir(&text));
}

#[test]
fn temp_dir_creates_unique_dir() {
    let mut fs = FakeFileSystem::new();
    let first = fs.temp_dir("/tmp", "prefix").unwrap();
    let second = fs.temp_dir("/tmp", "prefix").unwrap();
    assert_ne!(first.path().to_path_string(), second.path().to_path_string());
}

#[test]
fn temp_dir_is_removable_and_relative_paths_fall_back_to_root() {
    let mut fs = FakeFileSystem::new();
    let dir = fs.temp_dir("/tmp", "t").unwrap();
    let text = dir.path().to_path_string();
    fs.set_current_dir(&text).unwrap();
    fs.create_file("inside", b"1").unwrap();
    assert_eq!(fs.remove_dir_all(&text), Ok(()));
    assert!(!fs.is_dir(&text));
    assert_eq!(fs.create_file("loose", b"2"), Ok(()));
    assert!(fs.is_file("/loose"));
    assert_eq!(fs.rename("loose", "moved"), Ok(()));
    assert!(fs.is_file("/moved"));
}

#[test]
fn temp_dir_with_given_suffix() {
    let base = AbsPath::root();
    let dir = FakeTempDir::with_suffix(&base, "p", &vec!['x', '1']);
    assert_eq!(dir.path().to_path_string(), "/p/p_x1".to_string());
}

#[test]
fn nodes_report_their_kind() {
    let mut registry = Registry::new();
    let file = Node::File(filesystem::node::File::new(b"x".to_vec()));
    let dir = Node::Dir(filesystem::node::Dir::new());
    assert!(file.is_file(&registry));
    assert!(!file.is_dir(&registry));
    assert!(dir.is_dir(&registry));
    let link = Node::Symlink(filesystem::node::Symlink::new("/".to_string()));
    assert!(link.is_dir(&registry));
    assert!(!link.is_file(&registry));
    assert_eq!(registry.create_dir(&AbsPath::root()), Err(ErrorKind::AlreadyExists));
}

#[test]
fn fake_file_kinds() {
    let f = FakeFile::File(filesystem::file::File::new(vec![1, 2]));
    let d = FakeFile::Dir(filesystem::file::Dir::new());
    assert!(f.is_file() && !f.is_dir());
    assert!(d.is_dir() && !d.is_file());
}

#[test]
fn registry_refuses_dot_components() {
    let mut registry = Registry::new();
    let up = AbsPath { comps: vec![vec!['.', '.']] };
    assert_eq!(registry.create_dir(&up), Err(ErrorKind::InvalidInput));
    assert!(!registry.is_dir(&up));
}
