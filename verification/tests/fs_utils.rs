use std::path::Path;
use zero_shell::fs_utils::{
    classify_suffix, is_executable, join_path, long_entry, mode_to_string, name_for_display,
    path_file_name, read_dir_sorted, EntryInfo, FileKind,
};

const PATHS: [&str; 24] = [
    "", "/", "//", ".", "..", "./", "../", "a", "a/", "a//", "a/.", "a/./", "a/..", "/a/b",
    "./a", "../a", "a/b/c.txt", "/usr/bin/", "foo.txt/.//", "foo.txt/..", "./.", "/.", "a/.b", "...",
];

#[test]
fn file_name_matches_std() {
    for p in PATHS {
        let expected = Path::new(p).file_name().map(|s| s.to_str().unwrap().to_string());
        assert_eq!(path_file_name(p), expected, "path {:?}", p);
    }
}

#[test]
fn join_matches_std() {
    for d in ["", "/", "a", "a/", "/x/y", "dir//"] {
        for n in ["b", "c.txt", ".hidden"] {
            let expected = Path::new(d).join(n).to_str().unwrap().to_string();
            assert_eq!(join_path(d, n), expected, "dir {:?} name {:?}", d, n);
        }
    }
}

#[test]
fn joined_name_is_file_name() {
    for d in ["", "/", "a", "a/", "/x/./y/.."] {
        assert_eq!(path_file_name(&join_path(d, "n.txt")), Some("n.txt".to_string()));
    }
}

#[test]
fn permission_strings() {
    assert_eq!(mode_to_string(FileKind::Dir, 0o755), "drwxr-xr-x");
    assert_eq!(mode_to_string(FileKind::File, 0o644), "-rw-r--r--");
    assert_eq!(mode_to_string(FileKind::Symlink, 0o777), "lrwxrwxrwx");
    assert_eq!(mode_to_string(FileKind::CharDevice, 0o620), "crw--w----");
    assert_eq!(mode_to_string(FileKind::BlockDevice, 0o660), "brw-rw----");
    assert_eq!(mode_to_string(FileKind::Fifo, 0o000), "p---------");
    assert_eq!(mode_to_string(FileKind::Socket, 0o100755), "srwxr-xr-x");
}

#[test]
fn executable_bits() {
    assert!(is_executable(0o100));
    assert!(is_executable(0o001));
    assert!(!is_executable(0o644));
}

#[test]
fn suffixes() {
    let info = |kind, mode| EntryInfo { kind, mode, size: 0, modified: 0 };
    assert_eq!(classify_suffix(&info(FileKind::Dir, 0o755)), '/');
    assert_eq!(classify_suffix(&info(FileKind::Symlink, 0o777)), '@');
    assert_eq!(classify_suffix(&info(FileKind::File, 0o755)), '*');
    assert_eq!(classify_suffix(&info(FileKind::File, 0o644)), ' ');
}

#[test]
fn long_line() {
    let info = EntryInfo { kind: FileKind::File, mode: 0o777, size: 20, modified: 1762624151 };
    let expected = format!("{} {:>8} {:>10} {}  {}", "-rwxrwxrwx", 0, 20, "new_doc.txt", 1762624151);
    assert_eq!(long_entry("new_folder2/new_doc.txt", &info), expected);
    assert_eq!(long_entry("/", &info), format!("-rwxrwxrwx {:>8} {:>10}   1762624151", 0, 20));
}

#[test]
fn display_names() {
    assert_eq!(name_for_display("a/b.txt"), "b.txt");
    assert_eq!(name_for_display(".."), "");
}

#[test]
fn sorted_like_std() {
    let names: Vec<String> = ["b", "a", ".hidden", "B", "ä", "a1", "", "a", "Z9"].iter().map(|s| s.to_string()).collect();
    let mut expected = names.clone();
    expected.sort();
    assert_eq!(read_dir_sorted(names), expected);
}
