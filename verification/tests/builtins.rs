use zero_shell::builtins::{cat, cd, cp, echo, help, ls, mkdir, mv, report, rm};
use zero_shell::fs_utils::{path_file_name, EntryInfo, FileKind};
use zero_shell::shell::Shell;

fn words(v: &[&str]) -> Vec<String> {
    v.iter().map(|s| s.to_string()).collect()
}

fn step(s: &str, t: Option<&str>) -> (String, Option<String>) {
    (s.to_string(), t.map(|x| x.to_string()))
}

#[test]
fn echo_output() {
    assert_eq!(echo::run(&words(&["something", "else"])), "something else\n");
    assert_eq!(echo::run(&words(&["something!"])), "something!\n");
    assert_eq!(echo::run(&words(&[])), "\n");
    assert_eq!(echo::run(&words(&["a", "", "b"])), "a  b\n");
}

#[test]
fn cat_source() {
    assert!(cat::reads_input(&words(&[])));
    assert!(cat::reads_input(&words(&["-"])));
    assert!(cat::reads_input(&words(&["a.txt", "-"])));
    assert!(!cat::reads_input(&words(&["a.txt", "b.txt"])));
}

#[test]
fn cd_targets() {
    let mut sh = Shell::new();
    assert_eq!(cd::run(&sh, &words(&[]), Some("/home/me".to_string())), Some("/home/me".to_string()));
    assert_eq!(cd::run(&sh, &words(&[]), None), Some("/".to_string()));
    assert_eq!(cd::run(&sh, &words(&["-"]), None), None);
    assert_eq!(cd::run(&sh, &words(&["parent", "x"]), None), Some("parent".to_string()));
    sh.chdir(Ok("/start".to_string()), "parent", Ok(())).unwrap();
    assert_eq!(cd::run(&sh, &words(&["-"]), None), Some("/start".to_string()));
}

#[test]
fn cp_plans() {
    assert_eq!(cp::run(&words(&["a"]), false), Err("cp: expected SRC DEST".to_string()));
    assert_eq!(cp::run(&words(&["a", "b"]), false), Ok(vec![step("a", Some("b"))]));
    assert_eq!(
        cp::run(&words(&["new_folder1/new_doc.txt", "new_folder2"]), true),
        Ok(vec![step("new_folder1/new_doc.txt", Some("new_folder2/new_doc.txt"))])
    );
    assert_eq!(cp::run(&words(&["..", "d"]), true), Err("cp: invalid source name".to_string()));
    assert_eq!(
        cp::run(&words(&["a", "b", "d"]), false),
        Err("cp: last argument must be a directory when copying multiple files".to_string())
    );
    assert_eq!(
        cp::run(&words(&["x/a", "..", "b", "d/"]), true),
        Ok(vec![step("x/a", Some("d/a")), step("..", None), step("b", Some("d/b"))])
    );
}

#[test]
fn mv_plans() {
    assert_eq!(mv::run(&words(&[]), false), Err("mv: expected SRC DEST".to_string()));
    assert_eq!(
        mv::run(&words(&["new_folder2", "new_folder1"]), true),
        Ok(vec![step("new_folder2", Some("new_folder1/new_folder2"))])
    );
    assert_eq!(mv::run(&words(&["old", "new"]), false), Ok(vec![step("old", Some("new"))]));
    assert_eq!(mv::run(&words(&["/", "d"]), true), Err("mv: bad source name".to_string()));
    assert_eq!(
        mv::run(&words(&["a", "b", "f"]), false),
        Err("mv: last argument must be a directory when moving multiple files".to_string())
    );
}

#[test]
fn mv_falls_back_to_copy_and_remove() {
    let s = "a".to_string();
    let d = "b/a".to_string();
    assert_eq!(mv::move_one(&s, &d, true), None);
    assert_eq!(mv::move_one(&s, &d, false), Some((words(&["a", "b/a"]), words(&["a"]))));
}

#[test]
fn rm_plans() {
    assert_eq!(rm::run(&words(&[])), Err("rm: missing operand".to_string()));
    assert_eq!(rm::run(&words(&["-r"])), Err("rm: missing operand".to_string()));
    assert_eq!(rm::run(&words(&["-r", "new_folder1"])), Ok((true, words(&["new_folder1"]))));
    assert_eq!(rm::run(&words(&["a", "-R", "b"])), Ok((true, words(&["a", "b"]))));
    assert_eq!(rm::run(&words(&["a", "b"])), Ok((false, words(&["a", "b"]))));
    assert_eq!(rm::action("d", true, false), Err("rm: d: is a directory (use -r)".to_string()));
    assert_eq!(rm::action("d", true, true), Ok(true));
    assert_eq!(rm::action("f", false, false), Ok(false));
}

#[test]
fn mkdir_plans() {
    assert_eq!(mkdir::run(&words(&[])), Err("mkdir: missing operand".to_string()));
    assert_eq!(mkdir::run(&words(&["-p"])), Ok((true, words(&[]))));
    assert_eq!(
        mkdir::run(&words(&["-p", "parent/child1", "parent/child2"])),
        Ok((true, words(&["parent/child1", "parent/child2"])))
    );
    assert_eq!(mkdir::run(&words(&["new_folder1"])), Ok((false, words(&["new_folder1"]))));
}

#[test]
fn ls_flags() {
    let p = ls::run(&words(&[])).unwrap();
    assert_eq!(p.opts, ls::LsOpts { all: false, long: false, classify: false });
    assert_eq!(p.paths, words(&["."]));
    let p = ls::run(&words(&["-l", "-a", "-F"])).unwrap();
    assert_eq!(p.opts, ls::LsOpts { all: true, long: true, classify: true });
    let p = ls::run(&words(&["-aF", "x", "y"])).unwrap();
    assert_eq!(p.opts, ls::LsOpts { all: true, long: false, classify: true });
    assert_eq!(p.paths, words(&["x", "y"]));
    let p = ls::run(&words(&["-"])).unwrap();
    assert_eq!(p.paths, words(&["."]));
    assert_eq!(ls::run(&words(&["-lz", "x"])).err(), Some("ls: unknown flag -z".to_string()));
    assert_eq!(ls::run(&words(&["x", "-q", "-y"])).err(), Some("ls: unknown flag -q".to_string()));
}

#[test]
fn ls_hidden_entries() {
    let plain = ls::LsOpts { all: false, long: false, classify: false };
    let all = ls::LsOpts { all: true, long: false, classify: false };
    assert!(!ls::shown(".hidden", &plain));
    assert!(ls::shown(".hidden", &all));
    assert!(ls::shown("file.txt", &plain));
}

#[test]
fn ls_entry_lines() {
    let dir = EntryInfo { kind: FileKind::Dir, mode: 0o755, size: 4096, modified: 7 };
    let exe = EntryInfo { kind: FileKind::File, mode: 0o755, size: 3, modified: 7 };
    let link = EntryInfo { kind: FileKind::Symlink, mode: 0o777, size: 3, modified: 7 };
    let file = EntryInfo { kind: FileKind::File, mode: 0o644, size: 3, modified: 7 };
    let f = ls::LsOpts { all: false, long: false, classify: true };
    assert_eq!(ls::entry_line("./sub", &dir, &f), "\x1b[34msub\x1b[0m/\n");
    assert_eq!(ls::entry_line("run.sh", &exe, &f), "\x1b[32mrun.sh\x1b[0m*\n");
    assert_eq!(ls::entry_line("l", &link, &f), "\x1b[36ml\x1b[0m@\n");
    assert_eq!(ls::entry_line("a/file.txt", &file, &f), "file.txt\n");
    let plain = ls::LsOpts { all: false, long: false, classify: false };
    assert_eq!(ls::entry_line("./sub", &dir, &plain), "sub\n");
    let long = ls::LsOpts { all: false, long: true, classify: true };
    assert_eq!(ls::entry_line("f", &file, &long), format!("-rw-r--r-- {:>8} {:>10} f  7\n", 0, 3));
}

#[test]
fn ls_long_lines_mark_types() {
    let dir = EntryInfo { kind: FileKind::Dir, mode: 0o755, size: 4096, modified: 7 };
    let exe = EntryInfo { kind: FileKind::File, mode: 0o755, size: 3, modified: 7 };
    let link = EntryInfo { kind: FileKind::Symlink, mode: 0o777, size: 3, modified: 7 };
    let laf = ls::LsOpts { all: true, long: true, classify: true };
    assert_eq!(
        ls::entry_line("./.git", &dir, &laf),
        format!("drwxr-xr-x {:>8} {:>10} .git/  7\n", 0, 4096)
    );
    assert_eq!(ls::entry_line("run.sh", &exe, &laf), format!("-rwxr-xr-x {:>8} {:>10} run.sh*  7\n", 0, 3));
    assert_eq!(ls::entry_line("l", &link, &laf), format!("lrwxrwxrwx {:>8} {:>10} l@  7\n", 0, 3));
    let long = ls::LsOpts { all: true, long: true, classify: false };
    assert_eq!(ls::entry_line("./.git", &dir, &long), format!("drwxr-xr-x {:>8} {:>10} .git  7\n", 0, 4096));
}

#[test]
fn ls_layout() {
    let p = ls::run(&words(&["a", "b"])).unwrap();
    assert_eq!(p.dir_header(0), Some("a:\n".to_string()));
    assert!(p.gap_after(0));
    assert!(!p.gap_after(1));
    let q = ls::run(&words(&["a"])).unwrap();
    assert_eq!(q.dir_header(0), None);
    assert!(!q.gap_after(0));
}

#[test]
fn help_text() {
    let h = help::run();
    assert!(h.starts_with("0-shell builtins:"));
    assert!(h.contains("history                    - show command history"));
}

#[test]
fn error_reports() {
    assert_eq!(report("cat", "x.txt", "No such file or directory (os error 2)"), "cat: x.txt: No such file or directory (os error 2)");
}

#[test]
fn transfers_into_directories_keep_names() {
    for src in ["a.txt", "dir/b", "c/", "./d/."] {
        let plan = cp::run(&words(&[src, "dest"]), true).unwrap();
        let target = plan[0].1.clone().unwrap();
        assert_eq!(path_file_name(&target), path_file_name(src));
    }
}

#[test]
fn ls_shows_visible_names_sorted() {
    let plain = ls::LsOpts { all: false, long: false, classify: false };
    let all = ls::LsOpts { all: true, long: false, classify: false };
    let names = words(&["b", ".h", "a", "C", "c"]);
    assert_eq!(ls::visible_sorted(names.clone(), &plain), words(&["C", "a", "b", "c"]));
    assert_eq!(ls::visible_sorted(names, &all), words(&[".h", "C", "a", "b", "c"]));
    assert_eq!(ls::visible_sorted(words(&[".x"]), &plain), words(&[]));
}

#[test]
fn ls_directory_listings() {
    let dir = EntryInfo { kind: FileKind::Dir, mode: 0o755, size: 4096, modified: 7 };
    let file = EntryInfo { kind: FileKind::File, mode: 0o644, size: 3, modified: 7 };
    let two = ls::run(&words(&["-F", "d1", "d2"])).unwrap();
    let entries = vec![("a".to_string(), Ok(file)), ("sub".to_string(), Ok(dir))];
    assert_eq!(two.dir_text(0, Ok(entries.clone())), ("d1:\na\n\x1b[34msub\x1b[0m/\n\n".to_string(), None));
    assert_eq!(two.dir_text(1, Ok(entries.clone())), ("d2:\na\n\x1b[34msub\x1b[0m/\n".to_string(), None));
    let failing = vec![
        ("a".to_string(), Ok(file)),
        ("b".to_string(), Err("gone".to_string())),
        ("c".to_string(), Ok(file)),
    ];
    assert_eq!(two.dir_text(0, Ok(failing)), ("d1:\na\n".to_string(), Some("gone".to_string())));
    assert_eq!(two.dir_text(0, Err("denied".to_string())), ("d1:\n".to_string(), Some("denied".to_string())));
    let one = ls::run(&words(&["-l", "d1"])).unwrap();
    assert_eq!(
        one.dir_text(0, Ok(vec![("a".to_string(), Ok(file))])),
        (format!("-rw-r--r-- {:>8} {:>10} a  7\n", 0, 3), None)
    );
    assert_eq!(one.dir_text(0, Ok(vec![])), (String::new(), None));
}
