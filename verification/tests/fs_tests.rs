use tui2web::fs::{DirEntry, Filesystem, FsError, MemoryFilesystem};
use tui2web::path::{normalise, parent};

#[test]
fn create_and_read_file() {
    let mut fs = MemoryFilesystem::new();
    fs.write_file("hello.txt", b"world").unwrap();
    assert_eq!(fs.read_file("hello.txt").unwrap(), b"world");
    assert_eq!(fs.read_to_string("hello.txt").unwrap(), "world");
}

#[test]
fn write_requires_parent_directory() {
    let mut fs = MemoryFilesystem::new();
    let err = fs.write_file("a/b.txt", b"data").unwrap_err();
    assert!(matches!(err, FsError::ParentNotFound(_)));
}

#[test]
fn create_dir_all_and_write() {
    let mut fs = MemoryFilesystem::new();
    fs.create_dir_all("a/b/c").unwrap();
    fs.write_file("a/b/c/f.txt", b"ok").unwrap();
    assert_eq!(fs.read_file("a/b/c/f.txt").unwrap(), b"ok");
    assert!(fs.is_dir("a"));
    assert!(fs.is_dir("a/b"));
    assert!(fs.is_dir("a/b/c"));
}

#[test]
fn remove_file_and_exists() {
    let mut fs = MemoryFilesystem::new();
    fs.write_file("f.txt", b"x").unwrap();
    assert!(fs.path_exists("f.txt"));
    assert!(fs.is_file("f.txt"));
    fs.remove_file("f.txt").unwrap();
    assert!(!fs.path_exists("f.txt"));
}

#[test]
fn read_dir_lists_children() {
    let mut fs = MemoryFilesystem::new();
    fs.create_dir("src").unwrap();
    fs.write_file("src/a.rs", b"").unwrap();
    fs.write_file("src/b.rs", b"").unwrap();
    fs.create_dir("src/sub").unwrap();

    let entries = fs.read_dir("src").unwrap();
    let names: Vec<_> = entries.iter().map(|e| e.name.as_str()).collect();
    assert!(names.contains(&"a.rs"));
    assert!(names.contains(&"b.rs"));
    assert!(names.contains(&"sub"));
    assert!(entries.iter().find(|e| e.name == "sub").unwrap().is_dir);
}

#[test]
fn metadata_works() {
    let mut fs = MemoryFilesystem::new();
    fs.create_dir("d").unwrap();
    fs.write_file("d/f.txt", b"hello").unwrap();

    let md = fs.metadata("d").unwrap();
    assert!(md.is_dir);
    assert_eq!(md.len, 0);

    let mf = fs.metadata("d/f.txt").unwrap();
    assert!(!mf.is_dir);
    assert_eq!(mf.len, 5);
}

#[test]
fn leading_slash_normalisation() {
    let mut fs = MemoryFilesystem::new();
    fs.write_file("/root.txt", b"data").unwrap();
    assert_eq!(fs.read_file("root.txt").unwrap(), b"data");
    assert_eq!(fs.read_file("/root.txt").unwrap(), b"data");
}

#[test]
fn list_files_returns_all() {
    let mut fs = MemoryFilesystem::new();
    fs.create_dir("src").unwrap();
    fs.write_file("src/main.rs", b"fn main() {}").unwrap();
    fs.write_file("README.md", b"# hi").unwrap();
    let files = fs.list_files();
    assert_eq!(files.len(), 2);
    assert!(files.contains(&"README.md".to_string()));
    assert!(files.contains(&"src/main.rs".to_string()));
}

#[test]
fn rename_file() {
    let mut fs = MemoryFilesystem::new();
    fs.write_file("old.txt", b"content").unwrap();
    fs.rename("old.txt", "new.txt").unwrap();
    assert!(!fs.path_exists("old.txt"));
    assert_eq!(fs.read_file("new.txt").unwrap(), b"content");
}

#[test]
fn snapshot_and_restore() {
    let mut fs = MemoryFilesystem::new();
    fs.create_dir("src").unwrap();
    fs.write_file("src/lib.rs", b"pub mod x;").unwrap();
    fs.write_file("README.md", b"hi").unwrap();

    let snap = fs.snapshot();

    let mut fs2 = MemoryFilesystem::new();
    fs2.restore(snap);

    assert_eq!(fs2.read_file("src/lib.rs").unwrap(), b"pub mod x;");
    assert_eq!(fs2.read_file("README.md").unwrap(), b"hi");
    assert!(fs2.is_dir("src"));
}

#[test]
fn remove_dir_non_empty_fails() {
    let mut fs = MemoryFilesystem::new();
    fs.create_dir("d").unwrap();
    fs.write_file("d/f.txt", b"x").unwrap();
    assert!(fs.remove_dir("d").is_err());
}

#[test]
fn remove_dir_empty_succeeds() {
    let mut fs = MemoryFilesystem::new();
    fs.create_dir("d").unwrap();
    fs.remove_dir("d").unwrap();
    assert!(!fs.path_exists("d"));
}

#[test]
fn normalise_strips_and_collapses_slashes() {
    assert_eq!(normalise("/a//b/"), "a/b");
    assert_eq!(normalise("a/b"), "a/b");
    assert_eq!(normalise(""), "");
    assert_eq!(normalise("///"), "");
    assert_eq!(normalise("/"), "");
    assert_eq!(normalise("a"), "a");
    assert_eq!(normalise("//a///b//c.txt"), "a/b/c.txt");
}

#[test]
fn normalise_is_idempotent_on_samples() {
    for p in ["", "/", "a", "/a", "a/", "/a//b/", "x//y///z", "//", "a/b/c"] {
        let once = normalise(p);
        assert_eq!(normalise(&once), once);
        let slashed = format!("/{}", p);
        assert_eq!(normalise(&slashed), once);
    }
}

#[test]
fn parent_of_paths() {
    assert_eq!(parent("a/b/c"), Some("a/b".to_string()));
    assert_eq!(parent("a"), Some(String::new()));
    assert_eq!(parent(""), None);
    assert_eq!(parent("dir/file.txt"), Some("dir".to_string()));
}

#[test]
fn new_filesystem_has_only_the_root() {
    let fs = MemoryFilesystem::new();
    assert!(fs.is_dir(""));
    assert!(fs.is_dir("/"));
    assert!(fs.path_exists(""));
    assert!(!fs.is_file(""));
    assert!(fs.list_files().is_empty());
    assert!(fs.read_dir("").unwrap().is_empty());
    let d = MemoryFilesystem::default();
    assert!(d.is_dir(""));
    assert!(d.snapshot().is_empty());
}

#[test]
fn read_missing_file_is_not_found() {
    let mut fs = MemoryFilesystem::new();
    assert_eq!(fs.read_file("/no//such").unwrap_err(), FsError::NotFound("no/such".to_string()));
    fs.create_dir("d").unwrap();
    assert_eq!(fs.read_file("d").unwrap_err(), FsError::NotFound("d".to_string()));
    assert_eq!(fs.read_to_string("nope").unwrap_err(), FsError::NotFound("nope".to_string()));
}

#[test]
fn read_to_string_decodes_utf8() {
    let mut fs = MemoryFilesystem::new();
    fs.write_file("t.txt", "h\u{e9}llo \u{4e16}".as_bytes()).unwrap();
    assert_eq!(fs.read_to_string("t.txt").unwrap(), "h\u{e9}llo \u{4e16}");
}

#[test]
fn read_to_string_rejects_invalid_utf8() {
    let mut fs = MemoryFilesystem::new();
    fs.write_file("bin", &[0xff, 0xfe, 0x00]).unwrap();
    assert_eq!(fs.read_to_string("/bin").unwrap_err(), FsError::WrongKind("/bin".to_string()));
    assert_eq!(fs.read_file("bin").unwrap(), vec![0xff, 0xfe, 0x00]);
}

#[test]
fn write_overwrites_and_leaves_directories_alone() {
    let mut fs = MemoryFilesystem::new();
    fs.write_file("f", b"one").unwrap();
    fs.write_file("f", b"two").unwrap();
    assert_eq!(fs.read_file("f").unwrap(), b"two");
    assert_eq!(fs.list_files(), vec!["f".to_string()]);
    assert!(!fs.is_dir("f"));
}

#[test]
fn write_onto_directory_is_wrong_kind() {
    let mut fs = MemoryFilesystem::new();
    fs.create_dir("d").unwrap();
    assert_eq!(fs.write_file("d", b"x").unwrap_err(), FsError::WrongKind("d".to_string()));
    assert_eq!(fs.write_file("", b"x").unwrap_err(), FsError::WrongKind(String::new()));
    assert_eq!(
        fs.write_file("d/e/f.txt", b"x").unwrap_err(),
        FsError::ParentNotFound("d/e/f.txt".to_string())
    );
    assert!(fs.list_files().is_empty());
}

#[test]
fn remove_file_errors() {
    let mut fs = MemoryFilesystem::new();
    fs.create_dir("d").unwrap();
    assert_eq!(fs.remove_file("d").unwrap_err(), FsError::WrongKind("d".to_string()));
    assert_eq!(fs.remove_file("x").unwrap_err(), FsError::NotFound("x".to_string()));
}

#[test]
fn remove_dir_errors() {
    let mut fs = MemoryFilesystem::new();
    assert_eq!(fs.remove_dir("nope").unwrap_err(), FsError::NotFound("nope".to_string()));
    fs.create_dir("d").unwrap();
    fs.create_dir("d/e").unwrap();
    assert_eq!(
        fs.remove_dir("d").unwrap_err(),
        FsError::AlreadyExists("d is not empty".to_string())
    );
    fs.remove_dir("d/e").unwrap();
    fs.write_file("dx", b"").unwrap();
    fs.remove_dir("d").unwrap();
    assert!(!fs.is_dir("d"));
    assert!(fs.is_file("dx"));
}

#[test]
fn root_cannot_be_removed() {
    let mut fs = MemoryFilesystem::new();
    assert!(fs.remove_dir("").is_err());
    assert!(fs.is_dir(""));
    fs.write_file("f", b"").unwrap();
    assert_eq!(
        fs.remove_dir("/").unwrap_err(),
        FsError::AlreadyExists(" is not empty".to_string())
    );
    assert!(fs.is_dir(""));
}

#[test]
fn create_dir_errors() {
    let mut fs = MemoryFilesystem::new();
    fs.create_dir("d").unwrap();
    fs.write_file("f", b"").unwrap();
    assert_eq!(fs.create_dir("d").unwrap_err(), FsError::AlreadyExists("d".to_string()));
    assert_eq!(fs.create_dir("f").unwrap_err(), FsError::AlreadyExists("f".to_string()));
    assert_eq!(fs.create_dir("").unwrap_err(), FsError::AlreadyExists(String::new()));
    assert_eq!(fs.create_dir("x/y").unwrap_err(), FsError::ParentNotFound("x/y".to_string()));
    fs.create_dir("/d//e/").unwrap();
    assert!(fs.is_dir("d/e"));
}

#[test]
fn create_dir_all_is_idempotent_and_stops_at_a_file() {
    let mut fs = MemoryFilesystem::new();
    fs.create_dir_all("").unwrap();
    fs.create_dir_all("a/b").unwrap();
    fs.create_dir_all("/a//b/").unwrap();
    assert!(fs.is_dir("a"));
    assert!(fs.is_dir("a/b"));
    fs.write_file("a/b/f", b"").unwrap();
    let err = fs.create_dir_all("a/b/f/g/h").unwrap_err();
    assert_eq!(err, FsError::WrongKind("a/b/f".to_string()));
    assert!(!fs.is_dir("a/b/f"));
    assert!(!fs.is_dir("a/b/f/g"));
    assert!(!fs.is_dir("a/b/f/g/h"));
    assert_eq!(fs.create_dir_all("a/b/f").unwrap_err(), FsError::WrongKind("a/b/f".to_string()));

    fs.rename("a", "x/y").unwrap();
    assert!(!fs.is_dir("x"));
    assert!(fs.is_file("x/y/b/f"));
    let err = fs.create_dir_all("x/y/b/f/g").unwrap_err();
    assert_eq!(err, FsError::WrongKind("x/y/b/f".to_string()));
    assert!(fs.is_dir("x"));
    assert!(fs.is_dir("x/y/b"));
    assert!(!fs.is_dir("x/y/b/f"));
}

#[test]
fn read_dir_is_sorted_and_directories_win() {
    let mut fs = MemoryFilesystem::new();
    fs.create_dir("d").unwrap();
    fs.create_dir("d/z").unwrap();
    fs.create_dir("d/z/deep").unwrap();
    fs.write_file("d/z/deep/f", b"").unwrap();
    fs.write_file("d/m.txt", b"").unwrap();
    fs.write_file("d/a.txt", b"").unwrap();
    fs.write_file("top", b"").unwrap();
    let entries = fs.read_dir("/d/").unwrap();
    assert_eq!(
        entries,
        vec![
            DirEntry { name: "a.txt".to_string(), is_dir: false },
            DirEntry { name: "m.txt".to_string(), is_dir: false },
            DirEntry { name: "z".to_string(), is_dir: true },
        ]
    );
    let root = fs.read_dir("").unwrap();
    assert_eq!(
        root,
        vec![
            DirEntry { name: "d".to_string(), is_dir: true },
            DirEntry { name: "top".to_string(), is_dir: false },
        ]
    );
    assert_eq!(fs.read_dir("top").unwrap_err(), FsError::NotFound("top".to_string()));
    assert_eq!(fs.read_dir("none").unwrap_err(), FsError::NotFound("none".to_string()));
}

#[test]
fn metadata_of_missing_path() {
    let fs = MemoryFilesystem::new();
    assert_eq!(fs.metadata("x").unwrap_err(), FsError::NotFound("x".to_string()));
    let root = fs.metadata("").unwrap();
    assert!(root.is_dir);
    assert_eq!(root.len, 0);
}

#[test]
fn list_files_and_snapshot_are_in_path_order() {
    let mut fs = MemoryFilesystem::new();
    fs.create_dir("b").unwrap();
    fs.write_file("b/2", b"two").unwrap();
    fs.write_file("c", b"three").unwrap();
    fs.write_file("a", b"one").unwrap();
    fs.write_file("b/1", b"uno").unwrap();
    assert_eq!(fs.list_files(), vec!["a", "b/1", "b/2", "c"]);
    assert_eq!(
        fs.snapshot(),
        vec![
            ("a".to_string(), b"one".to_vec()),
            ("b/1".to_string(), b"uno".to_vec()),
            ("b/2".to_string(), b"two".to_vec()),
            ("c".to_string(), b"three".to_vec()),
        ]
    );
}

#[test]
fn restore_replaces_state_and_infers_directories() {
    let mut fs = MemoryFilesystem::new();
    fs.create_dir("gone").unwrap();
    fs.write_file("gone/f", b"x").unwrap();
    fs.restore(vec![
        ("/a/b/c.txt".to_string(), b"1".to_vec()),
        ("top.txt".to_string(), b"2".to_vec()),
        ("a/b/c.txt".to_string(), b"3".to_vec()),
    ]);
    assert!(!fs.path_exists("gone"));
    assert!(!fs.path_exists("gone/f"));
    assert!(fs.is_dir(""));
    assert!(fs.is_dir("a"));
    assert!(fs.is_dir("a/b"));
    assert!(!fs.is_dir("a/b/c.txt"));
    assert_eq!(fs.read_file("a/b/c.txt").unwrap(), b"3");
    assert_eq!(fs.list_files(), vec!["a/b/c.txt", "top.txt"]);
    fs.restore(Vec::new());
    assert!(fs.list_files().is_empty());
    assert!(fs.is_dir(""));
    assert!(!fs.is_dir("a"));
}

#[test]
fn rename_directory_moves_everything_below_it() {
    let mut fs = MemoryFilesystem::new();
    fs.create_dir_all("a/b").unwrap();
    fs.create_dir("keep").unwrap();
    fs.write_file("a/f.txt", b"f").unwrap();
    fs.write_file("a/b/g.txt", b"g").unwrap();
    fs.write_file("ab.txt", b"h").unwrap();
    fs.write_file("keep/k", b"k").unwrap();
    fs.rename("a", "z").unwrap();
    assert!(fs.is_dir("z"));
    assert!(fs.is_dir("z/b"));
    assert_eq!(fs.read_file("z/f.txt").unwrap(), b"f");
    assert_eq!(fs.read_file("z/b/g.txt").unwrap(), b"g");
    assert!(!fs.path_exists("a"));
    assert!(!fs.path_exists("a/b"));
    assert!(!fs.path_exists("a/f.txt"));
    assert!(!fs.path_exists("a/b/g.txt"));
    assert_eq!(fs.read_file("ab.txt").unwrap(), b"h");
    assert_eq!(fs.read_file("keep/k").unwrap(), b"k");
    assert!(fs.is_dir("keep"));
    assert!(fs.is_dir(""));
    assert_eq!(fs.list_files(), vec!["ab.txt", "keep/k", "z/b/g.txt", "z/f.txt"]);
}

#[test]
fn rename_errors() {
    let mut fs = MemoryFilesystem::new();
    assert_eq!(fs.rename("x", "y").unwrap_err(), FsError::NotFound("x".to_string()));
    fs.write_file("f", b"1").unwrap();
    assert_eq!(
        fs.rename("f", "no/dir/f").unwrap_err(),
        FsError::ParentNotFound("no/dir/f".to_string())
    );
    assert_eq!(fs.read_file("f").unwrap(), b"1");
    fs.rename("f", "f").unwrap();
    assert_eq!(fs.read_file("f").unwrap(), b"1");
}

#[test]
fn error_messages() {
    assert_eq!(FsError::NotFound("p".to_string()).message(), "not found: p");
    assert_eq!(FsError::AlreadyExists("p".to_string()).message(), "already exists: p");
    assert_eq!(
        FsError::ParentNotFound("p".to_string()).message(),
        "parent directory not found: p"
    );
    assert_eq!(FsError::WrongKind("p".to_string()).message(), "wrong kind: p");
}
