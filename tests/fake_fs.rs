use filesystem::{ErrorKind, FakeFileSystem};

fn fs_with_file(path: &str, contents: &[u8]) -> FakeFileSystem {
    let mut fs = FakeFileSystem::new();
    fs.create_file(path, contents).unwrap();
    fs
}

#[test]
fn create_dir_creates_new_dir() {
    let mut fs = FakeFileSystem::new();
    assert_eq!(fs.create_dir("/new_dir"), Ok(()));
    assert!(fs.is_dir("/new_dir"));
    assert!(!fs.is_file("/new_dir"));
}

#[test]
fn create_dir_fails_if_dir_already_exists() {
    let mut fs = FakeFileSystem::new();
    fs.create_dir("/d").unwrap();
    assert_eq!(fs.create_dir("/d"), Err(ErrorKind::AlreadyExists));
}

#[test]
fn create_dir_fails_if_parent_does_not_exist() {
    let mut fs = FakeFileSystem::new();
    assert_eq!(fs.create_dir("/parent/child"), Err(ErrorKind::NotFound));
    assert!(!fs.is_dir("/parent/child"));
}

#[test]
fn create_dir_fails_in_readonly_dir() {
    let mut fs = FakeFileSystem::new();
    fs.create_dir("/ro").unwrap();
    fs.set_readonly("/ro", true).unwrap();
    assert_eq!(fs.create_dir("/ro/x"), Err(ErrorKind::PermissionDenied));
    assert_eq!(fs.create_file("/ro/f", b"x"), Err(ErrorKind::PermissionDenied));
}

#[test]
fn create_dir_fails_under_a_file() {
    let mut fs = fs_with_file("/f", b"");
    assert_eq!(fs.create_dir("/f/x"), Err(ErrorKind::NotADirectory));
}

#[test]
fn create_dir_all_creates_dirs_in_path() {
    let mut fs = FakeFileSystem::new();
    assert_eq!(fs.create_dir_all("/a/b/c"), Ok(()));
    assert!(fs.is_dir("/a"));
    assert!(fs.is_dir("/a/b"));
    assert!(fs.is_dir("/a/b/c"));
    assert_eq!(fs.create_dir_all("/a/b/c"), Ok(()));
    assert!(fs.is_dir("/a/b/c"));
}

#[test]
fn create_dir_all_still_succeeds_if_any_dir_already_exists() {
    let mut fs = FakeFileSystem::new();
    fs.create_dir("/parent").unwrap();
    fs.create_dir_all("/parent/a/b").unwrap();
    assert_eq!(fs.create_dir_all("/parent/a/b/c"), Ok(()));
    assert!(fs.is_dir("/parent/a"));
    assert!(fs.is_dir("/parent/a/b"));
    assert!(fs.is_dir("/parent/a/b/c"));
}

#[test]
fn create_dir_all_fails_on_a_file() {
    let mut fs = fs_with_file("/f", b"");
    assert!(fs.create_dir_all("/f").is_err());
    assert!(fs.create_dir_all("/f/x/y").is_err());
}

#[test]
fn remove_dir_deletes_dir() {
    let mut fs = FakeFileSystem::new();
    fs.create_dir("/d").unwrap();
    assert_eq!(fs.remove_dir("/d"), Ok(()));
    assert!(!fs.is_dir("/d"));
}

#[test]
fn remove_dir_only_deletes_child() {
    let mut fs = FakeFileSystem::new();
    fs.create_dir_all("/parent/child").unwrap();
    assert_eq!(fs.remove_dir("/parent/child"), Ok(()));
    assert!(fs.is_dir("/parent"));
    assert!(!fs.is_dir("/parent/child"));
}

#[test]
fn remove_dir_fails_if_path_does_not_exist() {
    let mut fs = FakeFileSystem::new();
    assert_eq!(fs.remove_dir("/nope"), Err(ErrorKind::NotFound));
}

#[test]
fn remove_dir_fails_if_path_is_a_file() {
    let mut fs = fs_with_file("/f", b"");
    assert_eq!(fs.remove_dir("/f"), Err(ErrorKind::NotADirectory));
    assert!(fs.is_file("/f"));
}

#[test]
fn remove_dir_fails_if_dir_is_not_empty() {
    let mut fs = FakeFileSystem::new();
    fs.create_dir_all("/d/child").unwrap();
    assert_eq!(fs.read_dir("/d").unwrap().len(), 1);
    assert_eq!(fs.remove_dir("/d"), Err(ErrorKind::DirectoryNotEmpty));
    assert!(fs.is_dir("/d/child"));
    fs.remove_dir("/d/child").unwrap();
    assert!(fs.read_dir("/d").unwrap().is_empty());
    assert_eq!(fs.remove_dir("/d"), Ok(()));
}

#[test]
fn remove_dir_refuses_the_root() {
    let mut fs = FakeFileSystem::new();
    assert_eq!(fs.remove_dir("/"), Err(ErrorKind::Other));
    assert!(fs.is_dir("/"));
}

#[test]
fn remove_dir_all_removes_dir_and_contents() {
    let mut fs = FakeFileSystem::new();
    fs.create_dir("/parent").unwrap();
    fs.create_dir("/parent/dir").unwrap();
    fs.create_file("/parent/dir/file", b"").unwrap();
    assert_eq!(fs.remove_dir_all("/parent/dir"), Ok(()));
    assert!(!fs.is_dir("/parent/dir"));
    assert!(!fs.is_file("/parent/dir/file"));
    assert!(fs.is_dir("/parent"));
}

#[test]
fn remove_dir_all_scenario_at_root_level() {
    let mut fs = FakeFileSystem::new();
    fs.create_dir("/a").unwrap();
    fs.create_file("/a/f", b"x").unwrap();
    assert_eq!(fs.remove_dir_all("/a"), Ok(()));
    assert!(!fs.is_dir("/a"));
    assert!(!fs.is_file("/a/f"));
}

#[test]
fn remove_dir_all_removes_deep_trees_only() {
    let mut fs = FakeFileSystem::new();
    fs.create_dir_all("/a/b/c").unwrap();
    fs.create_file("/a/b/c/f", b"1").unwrap();
    fs.create_file("/ab", b"2").unwrap();
    assert_eq!(fs.remove_dir_all("/a"), Ok(()));
    assert!(!fs.is_dir("/a/b"));
    assert!(!fs.is_file("/a/b/c/f"));
    assert!(fs.is_file("/ab"));
}

#[test]
fn remove_dir_all_fails_if_path_is_a_file() {
    let mut fs = fs_with_file("/f", b"");
    assert_eq!(fs.remove_dir_all("/f"), Err(ErrorKind::NotADirectory));
}

#[test]
fn remove_dir_all_fails_if_a_descendant_is_unreadable() {
    let mut fs = FakeFileSystem::new();
    fs.create_dir("/a").unwrap();
    fs.create_file("/a/f", b"x").unwrap();
    fs.set_mode("/a/f", 0o200).unwrap();
    assert_eq!(fs.remove_dir_all("/a"), Err(ErrorKind::PermissionDenied));
    assert!(fs.is_dir("/a"));
    assert!(fs.is_file("/a/f"));
}

#[test]
fn remove_dir_all_fails_if_dir_is_readonly() {
    let mut fs = FakeFileSystem::new();
    fs.create_dir("/a").unwrap();
    fs.set_readonly("/a", true).unwrap();
    assert_eq!(fs.remove_dir_all("/a"), Err(ErrorKind::PermissionDenied));
    assert!(fs.is_dir("/a"));
}

#[test]
fn read_dir_lists_children_names() {
    let mut fs = FakeFileSystem::new();
    fs.create_dir_all("/d/sub/deep").unwrap();
    fs.create_file("/d/f", b"").unwrap();
    let mut names = fs.read_dir("/d").unwrap();
    names.sort();
    assert_eq!(names, vec!["f".to_string(), "sub".to_string()]);
}

#[test]
fn read_dir_fails_on_file_and_missing() {
    let mut fs = fs_with_file("/f", b"");
    assert_eq!(fs.read_dir("/f"), Err(ErrorKind::NotADirectory));
    assert_eq!(fs.read_dir("/missing"), Err(ErrorKind::NotFound));
    fs.create_dir("/d").unwrap();
}

#[test]
fn write_file_writes_to_new_file() {
    let mut fs = FakeFileSystem::new();
    assert_eq!(fs.write_file("/new", b"new contents"), Ok(()));
    assert_eq!(fs.read_file("/new"), Ok(b"new contents".to_vec()));
}

#[test]
fn write_file_overwrites_contents_of_existing_file() {
    let mut fs = fs_with_file("/f", b"old contents");
    assert_eq!(fs.write_file("/f", b"new"), Ok(()));
    assert_eq!(fs.read_file("/f"), Ok(b"new".to_vec()));
}

#[test]
fn write_file_twice_keeps_one_copy() {
    let mut fs = FakeFileSystem::new();
    fs.write_file("/f", b"abc").unwrap();
    fs.write_file("/f", b"abc").unwrap();
    assert_eq!(fs.read_file("/f"), Ok(b"abc".to_vec()));
}

#[test]
fn write_file_fails_if_file_is_readonly() {
    let mut fs = fs_with_file("/f", b"");
    fs.set_readonly("/f", true).unwrap();
    assert_eq!(fs.write_file("/f", b"x"), Err(ErrorKind::PermissionDenied));
    assert_eq!(fs.read_file("/f"), Ok(Vec::new()));
    fs.set_readonly("/f", false).unwrap();
    assert_eq!(fs.write_file("/f", b"x"), Ok(()));
    assert_eq!(fs.read_file("/f"), Ok(b"x".to_vec()));
}

#[test]
fn write_file_fails_on_a_directory() {
    let mut fs = FakeFileSystem::new();
    fs.create_dir("/d").unwrap();
    assert_eq!(fs.write_file("/d", b"x"), Err(ErrorKind::IsADirectory));
}

#[test]
fn overwrite_file_needs_an_existing_file() {
    let mut fs = FakeFileSystem::new();
    assert_eq!(fs.overwrite_file("/f", b"x"), Err(ErrorKind::NotFound));
    fs.create_file("/f", b"a").unwrap();
    assert_eq!(fs.overwrite_file("/f", b"bc"), Ok(()));
    assert_eq!(fs.read_file("/f"), Ok(b"bc".to_vec()));
}

#[test]
fn read_file_returns_contents_as_bytes() {
    let fs = fs_with_file("/test.txt", b"test text");
    assert_eq!(fs.read_file("/test.txt"), Ok(b"test text".to_vec()));
}

#[test]
fn read_file_fails_if_file_does_not_exist() {
    let fs = FakeFileSystem::new();
    assert_eq!(fs.read_file("/missing"), Err(ErrorKind::NotFound));
}

#[test]
fn read_file_fails_on_dir_and_unreadable_file() {
    let mut fs = fs_with_file("/f", b"x");
    fs.create_dir("/d").unwrap();
    assert_eq!(fs.read_file("/d"), Err(ErrorKind::IsADirectory));
    fs.set_mode("/f", 0o200).unwrap();
    assert_eq!(fs.read_file("/f"), Err(ErrorKind::PermissionDenied));
}

#[test]
fn read_file_to_string_returns_text() {
    let fs = fs_with_file("/t", "héllo".as_bytes());
    assert_eq!(fs.read_file_to_string("/t"), Ok("héllo".to_string()));
}

#[test]
fn read_file_to_string_fails_on_invalid_utf8() {
    let fs = fs_with_file("/t", &[0xff, 0xfe]);
    assert_eq!(fs.read_file_to_string("/t"), Err(ErrorKind::InvalidData));
}

#[test]
fn read_file_into_appends_contents() {
    let fs = fs_with_file("/f", b"world");
    let mut buf = b"hello ".to_vec();
    assert_eq!(fs.read_file_into("/f", &mut buf), Ok(5));
    assert_eq!(buf, b"hello world".to_vec());
    assert_eq!(fs.read_file_into("/none", &mut buf), Err(ErrorKind::NotFound));
    assert_eq!(buf, b"hello world".to_vec());
}

#[test]
fn create_file_writes_writes_to_new_file() {
    let mut fs = FakeFileSystem::new();
    assert_eq!(fs.create_file("/new", b"contents"), Ok(()));
    assert_eq!(fs.read_file("/new"), Ok(b"contents".to_vec()));
}

#[test]
fn create_file_fails_if_file_already_exists() {
    let mut fs = fs_with_file("/f", b"a");
    assert_eq!(fs.create_file("/f", b"b"), Err(ErrorKind::AlreadyExists));
    assert_eq!(fs.read_file("/f"), Ok(b"a".to_vec()));
}

#[test]
fn remove_file_removes_a_file() {
    let mut fs = fs_with_file("/f", b"a");
    assert_eq!(fs.remove_file("/f"), Ok(()));
    assert!(!fs.is_file("/f"));
    assert_eq!(fs.remove_file("/f"), Err(ErrorKind::NotFound));
}

#[test]
fn remove_file_fails_on_a_directory() {
    let mut fs = FakeFileSystem::new();
    fs.create_dir("/d").unwrap();
    assert_eq!(fs.remove_file("/d"), Err(ErrorKind::Other));
    assert!(fs.is_dir("/d"));
}

#[test]
fn readonly_returns_write_permission() {
    let mut fs = fs_with_file("/f", b"");
    assert_eq!(fs.readonly("/f"), Ok(false));
    fs.set_readonly("/f", true).unwrap();
    assert_eq!(fs.readonly("/f"), Ok(true));
}

#[test]
fn readonly_fails_if_path_does_not_exist() {
    let fs = FakeFileSystem::new();
    assert_eq!(fs.readonly("/missing"), Err(ErrorKind::NotFound));
}

#[test]
fn set_readonly_toggles_write_permission_of_dir() {
    let mut fs = FakeFileSystem::new();
    fs.create_dir("/test_dir").unwrap();
    assert_eq!(fs.set_readonly("/test_dir", true), Ok(()));
    assert!(fs.write_file("/test_dir/file", b"").is_err());
    assert_eq!(fs.set_readonly("/test_dir", false), Ok(()));
    assert!(fs.write_file("/test_dir/file", b"").is_ok());
    assert_eq!(fs.mode("/test_dir"), Ok(0o666));
    assert_eq!(fs.set_readonly("/missing", true), Err(ErrorKind::NotFound));
}

#[test]
fn mode_defaults_and_set_mode() {
    let mut fs = fs_with_file("/f", b"");
    assert_eq!(fs.mode("/f"), Ok(0o644));
    assert_eq!(fs.set_mode("/f", 0o755), Ok(()));
    assert_eq!(fs.mode("/f"), Ok(0o755));
    assert_eq!(fs.set_mode("/missing", 0o755), Err(ErrorKind::NotFound));
}

#[test]
fn len_reports_sizes() {
    let mut fs = fs_with_file("/f", b"12345");
    fs.create_dir("/d").unwrap();
    fs.symlink("/f", "/l").unwrap();
    assert_eq!(fs.len("/f"), 5);
    assert_eq!(fs.len("/d"), 4096);
    assert_eq!(fs.len("/l"), 34);
    assert_eq!(fs.len("/missing"), 0);
}

#[test]
fn relative_paths_follow_the_current_dir() {
    let mut fs = FakeFileSystem::new();
    fs.create_dir_all("/home/user").unwrap();
    assert_eq!(fs.current_dir(), Ok("/".to_string()));
    assert_eq!(fs.set_current_dir("/home/user"), Ok(()));
    assert_eq!(fs.current_dir(), Ok("/home/user".to_string()));
    fs.create_file("notes", b"n").unwrap();
    assert!(fs.is_file("/home/user/notes"));
    assert_eq!(fs.read_file("notes"), Ok(b"n".to_vec()));
}

#[test]
fn set_current_dir_fails_if_path_does_not_exists() {
    let mut fs = FakeFileSystem::new();
    assert_eq!(fs.set_current_dir("/does_not_exist"), Err(ErrorKind::NotFound));
    assert_eq!(fs.current_dir(), Ok("/".to_string()));
}

#[test]
fn set_current_dir_fails_if_path_is_a_file() {
    let mut fs = fs_with_file("/f", b"");
    assert_eq!(fs.set_current_dir("/f"), Err(ErrorKind::NotADirectory));
}

#[test]
fn dot_components_are_rejected() {
    let mut fs = FakeFileSystem::new();
    fs.create_dir("/a").unwrap();
    assert_eq!(fs.create_dir("/a/../b"), Err(ErrorKind::InvalidInput));
    assert_eq!(fs.read_file("./x"), Err(ErrorKind::InvalidInput));
    assert!(!fs.is_dir("/a/."));
}

#[test]
fn repeated_separators_are_ignored() {
    let mut fs = FakeFileSystem::new();
    fs.create_dir_all("//a///b/").unwrap();
    assert!(fs.is_dir("/a/b"));
}

#[test]
fn is_file_returns_false_if_path_does_not_exist() {
    let fs = FakeFileSystem::new();
    assert!(!fs.is_file("/missing"));
    assert!(!fs.is_dir("/missing"));
}

#[test]
fn error_descriptions() {
    assert_eq!(ErrorKind::NotFound.description(), "entity not found");
    assert_eq!(ErrorKind::PermissionDenied.description(), "permission denied");
    assert_eq!(ErrorKind::Other.description(), "other os error");
}
