use zill::error::ZillError;
use zill::fs::{DirMeta, FileMeta, Node, VirtualFs};
use zill::nested::NestedNode;
use zill::order::sort_strings;
use zill::parser::{AstNode, Parser};
use zill::{ZillLimits, ZillSession};

fn run(session: &mut ZillSession, line: &str) -> (String, String, i32) {
    let o = session.run(line);
    (o.stdout, o.stderr, o.exit_code)
}

#[test]
fn read_after_write_gives_the_content() {
    let mut fs = VirtualFs::new(10, 100);
    fs.create_file("/a.txt", b"one".to_vec()).unwrap();
    fs.write("/a.txt", b"two".to_vec()).unwrap();
    assert_eq!(fs.read("/a.txt").unwrap(), b"two");
    fs.write("/b.txt", b"three".to_vec()).unwrap();
    assert_eq!(fs.read("/b.txt").unwrap(), b"three");
}

#[test]
fn removed_file_is_missing() {
    let mut fs = VirtualFs::new(10, 100);
    fs.create_file("/a.txt", b"x".to_vec()).unwrap();
    fs.remove("/a.txt").unwrap();
    assert!(matches!(fs.stat("/a.txt"), Err(ZillError::NotFound(_))));
    assert_eq!(fs.list_dir("/").unwrap(), Vec::<String>::new());
}

#[test]
fn mkdir_p_twice_changes_nothing_more() {
    let mut fs = VirtualFs::new(10, 100);
    fs.mkdir_p("/x/y").unwrap();
    let n = fs.node_count();
    fs.mkdir_p("/x/y").unwrap();
    assert_eq!(fs.node_count(), n);
    assert_eq!(n, 3);
}

#[test]
fn node_limit_is_kept() {
    let mut fs = VirtualFs::new(3, 100);
    assert!(fs.mkdir_p("/a/b/c").is_err());
    assert!(fs.node_count() <= 3);
}

#[test]
fn file_size_limit_is_kept() {
    let mut fs = VirtualFs::new(10, 4);
    let e = fs.write("/big", b"12345".to_vec()).unwrap_err();
    assert_eq!(e.message(), "zill: file too large");
    assert!(fs.stat("/big").is_err());
}

#[test]
fn remove_errors() {
    let mut fs = VirtualFs::new(10, 100);
    fs.mkdir_p("/d/e").unwrap();
    assert!(matches!(fs.remove("/d"), Err(ZillError::DirectoryNotEmpty(_))));
    assert!(matches!(fs.remove("/"), Err(ZillError::PermissionDenied(_))));
    assert!(matches!(fs.remove("/none"), Err(ZillError::NotFound(_))));
}

#[test]
fn error_messages() {
    let s = |x: &str| x.to_string();
    assert_eq!(ZillError::NotFound(s("/a")).message(), "ls: /a: No such file or directory");
    assert_eq!(ZillError::NotADirectory(s("/a")).message(), "ls: /a: Not a directory");
    assert_eq!(ZillError::IsADirectory(s("/a")).message(), "cat: /a: Is a directory");
    assert_eq!(ZillError::FileExists(s("/a")).message(), "mkdir: cannot create directory ‘/a’: File exists");
    assert_eq!(ZillError::RmNotFound(s("a")).message(), "rm: cannot remove ‘a’: No such file or directory");
    assert_eq!(ZillError::RmIsDirectory(s("a")).message(), "rm: cannot remove ‘a’: Is a directory");
    assert_eq!(ZillError::DirectoryNotEmpty(s("/a")).message(), "rm: cannot remove ‘/a’: Directory not empty");
    assert_eq!(ZillError::PermissionDenied(s("x")).message(), "zill: x: permission denied");
    assert_eq!(ZillError::FileTooLarge.message(), "zill: file too large");
    assert_eq!(ZillError::DiskFull.message(), "zill: disk full");
    assert_eq!(ZillError::InvalidPath(s("p")).message(), "zill: invalid path: p");
    assert_eq!(ZillError::Generic(s("g")).message(), "zill: g");
}

#[test]
fn canonical_paths_are_clean() {
    let fs = VirtualFs::new(10, 100);
    assert_eq!(fs.canonicalize("a/./b/../c", "/"), "/a/c");
    assert_eq!(fs.canonicalize("..", "/"), "/");
    assert_eq!(fs.canonicalize("x//y/", "/w"), "/w/x/y");
}

#[test]
fn cat_of_a_missing_file() {
    let mut s = ZillSession::new();
    assert_eq!(run(&mut s, "cat /nope"), (String::new(), "ls: /nope: No such file or directory".to_string(), 1));
}

#[test]
fn cat_numbers_lines_and_reads_stdin() {
    let mut s = ZillSession::new();
    run(&mut s, "echo -n 'a\nb' > /f");
    assert_eq!(run(&mut s, "cat -n /f").0, "     1  a\n     2  b\n");
    assert_eq!(run(&mut s, "cat < /f").0, "a\nb");
    assert_eq!(run(&mut s, "echo hi | cat | cat").0, "hi\n");
}

#[test]
fn cat_replaces_invalid_bytes() {
    let mut s = ZillSession::new();
    s.vfs.create_file("/bin", vec![0xff, b'a']).unwrap();
    assert_eq!(run(&mut s, "cat /bin").0, "\u{FFFD}a");
}

#[test]
fn parse_errors_are_reported() {
    let mut s = ZillSession::new();
    assert_eq!(run(&mut s, "echo 'abc"), (String::new(), "zill: parse error: unclosed quote".to_string(), 1));
}

#[test]
fn unknown_commands() {
    let mut s = ZillSession::new();
    assert_eq!(run(&mut s, "frobnicate x"), (String::new(), "frobnicate: command not found\n".to_string(), 127));
    assert_eq!(run(&mut s, "false").2, 1);
    assert_eq!(run(&mut s, ":").2, 0);
}

#[test]
fn unicode_variable_names() {
    let mut s = ZillSession::new();
    run(&mut s, "é=1");
    assert_eq!(run(&mut s, "echo $é ${é}x $"), ("1 1x $\n".to_string(), String::new(), 0));
}

#[test]
fn for_leaves_the_last_item_bound() {
    let mut s = ZillSession::new();
    assert_eq!(run(&mut s, "for x in a b; do true; done; echo $x").0, "b\n");
}

#[test]
fn if_condition_output_is_dropped() {
    let mut s = ZillSession::new();
    assert_eq!(run(&mut s, "if echo hidden; then echo shown; fi").0, "shown\n");
    assert_eq!(run(&mut s, "if false; then echo yes; fi"), (String::new(), String::new(), 0));
}

#[test]
fn subshell_restores_directory_and_variables() {
    let mut s = ZillSession::new();
    run(&mut s, "mkdir /d; A=1");
    assert_eq!(run(&mut s, "(cd /d; A=2; pwd; echo $A); pwd; echo $A").0, "/d\n2\n/\n1\n");
}

#[test]
fn redirection_appends_and_creates() {
    let mut s = ZillSession::new();
    run(&mut s, "echo a >> /new.txt");
    run(&mut s, "echo b >> /new.txt");
    assert_eq!(s.vfs.read("/new.txt").unwrap(), b"a\nb\n");
}

#[test]
fn ls_long_shows_the_time() {
    let mut s = ZillSession::new();
    s.run_at("touch /f", 0);
    let out = s.run_at("ls -l /", 0).stdout;
    assert_eq!(out, "-rwxr-xr-x 1 zill zill        0 Jan 01 00:00 f\n");
}

#[test]
fn rg_options() {
    let mut s = ZillSession::new();
    run(&mut s, "echo -n 'alpha\nbeta\nBETA\n' > /f.txt");
    assert_eq!(run(&mut s, "rg -n beta /f.txt").0, "/f.txt:2:beta\n");
    assert_eq!(run(&mut s, "rg -i beta /f.txt").0, "/f.txt:beta\n/f.txt:BETA\n");
    assert_eq!(run(&mut s, "rg -l -i beta /").0, "/f.txt\n");
    assert_eq!(run(&mut s, "rg --max-count 1 -i beta /f.txt").0, "/f.txt:beta\n");
    assert_eq!(run(&mut s, "rg -c -i beta /f.txt").0, "/f.txt:2\n");
    assert_eq!(run(&mut s, "rg zzz /f.txt"), (String::new(), String::new(), 0));
}

#[test]
fn rg_errors() {
    let mut s = ZillSession::new();
    let (out, err, code) = run(&mut s, "rg '('");
    assert_eq!((out.as_str(), code), ("", 1));
    assert!(err.starts_with("zill: invalid regex: "));
    let (_, err, code) = run(&mut s, "rg");
    assert_eq!(code, 1);
    assert!(err.contains("<PATTERN>"));
    let (_, err, code) = run(&mut s, "rg --max-count x a");
    assert_eq!(code, 1);
    assert_eq!(err, "error: invalid value 'x' for '--max-count <MAX_COUNT>': invalid digit found in string\n\nFor more information, try '--help'.\n");
    let (_, err, code) = run(&mut s, "rg -z a");
    assert_eq!(code, 1);
    assert_eq!(
        err,
        "error: unexpected argument '-z' found\n\n  tip: to pass '-z' as a value, use '-- -z'\n\nUsage: zill [OPTIONS] <PATTERN> [PATHS]...\n\nFor more information, try '--help'.\n"
    );
}

#[test]
fn rg_stops_at_the_match_limit() {
    let limits = ZillLimits { max_match_count: 2, ..Default::default() };
    let mut s = ZillSession::with_limits(limits);
    run(&mut s, "echo x > /a; echo x > /b; echo x > /c");
    assert_eq!(run(&mut s, "rg x /").0, "/a:x\n/b:x\n");
}

#[test]
fn fd_lists_sorted_paths() {
    let mut s = ZillSession::new();
    run(&mut s, "mkdir -p /b/c; touch /a.txt /b/z.rs /b/c/y.txt");
    assert_eq!(run(&mut s, "fd").0, "/a.txt\n/b\n/b/c\n/b/c/y.txt\n/b/z.rs\n");
    assert_eq!(run(&mut s, "fd -t f").0, "/a.txt\n/b/c/y.txt\n/b/z.rs\n");
    assert_eq!(run(&mut s, "fd -t d").0, "/b\n/b/c\n");
    assert_eq!(run(&mut s, "fd -d 1").0, "/a.txt\n/b\n");
    assert_eq!(run(&mut s, "fd -e txt -e rs . /b").0, "/b/c/y.txt\n/b/z.rs\n");
    assert_eq!(run(&mut s, "fd '*.rs'").0, "/b/z.rs\n");
}

#[test]
fn fd_follows_gitignore() {
    let mut s = ZillSession::new();
    run(&mut s, "mkdir /d; touch /d/a.txt /d/b.rs");
    run(&mut s, "echo '*.txt' > /.gitignore");
    assert_eq!(run(&mut s, "fd").0, "/d\n/d/b.rs\n");
    assert_eq!(run(&mut s, "fd -H").0, "/.gitignore\n/d\n/d/b.rs\n");
}

#[test]
fn fd_errors() {
    let mut s = ZillSession::new();
    let (out, err, code) = run(&mut s, "fd '['");
    assert_eq!((out.as_str(), code), ("", 1));
    assert!(err.starts_with("zill: "));
    assert_eq!(
        run(&mut s, "fd a b c").1,
        "error: unexpected argument 'c' found\n\nUsage: zill [OPTIONS] [PATTERN] [PATH]\n\nFor more information, try '--help'.\n"
    );
    assert_eq!(run(&mut s, "fd -d x").1, "error: invalid value 'x' for '-d <MAX_DEPTH>': invalid digit found in string\n\nFor more information, try '--help'.\n");
    assert_eq!(run(&mut s, "fd x /missing").1, "ls: /missing: No such file or directory");
}

#[test]
fn sorting_strings() {
    let v = vec!["b".to_string(), "a".to_string(), "B".to_string(), "a".to_string()];
    assert_eq!(sort_strings(&v), vec!["B", "a", "a", "b"]);
}

#[test]
fn nested_form_round_trip() {
    let mut fs = VirtualFs::new(10, 100);
    fs.mkdir_p("/d/e").unwrap();
    fs.create_file("/d/b.txt", b"hi".to_vec()).unwrap();
    fs.create_file("/a", b"x".to_vec()).unwrap();
    let n = fs.to_nested().unwrap();
    let names: Vec<&str> = n.children.as_ref().unwrap().iter().map(|c| c.name.as_str()).collect();
    assert_eq!(names, vec!["a", "d"]);
    let back = VirtualFs::from_nested(&n, 10, 100).unwrap();
    assert_eq!(back.node_count(), fs.node_count());
    assert_eq!(back.read("/d/b.txt").unwrap(), b"hi");
    assert_eq!(back.list_dir("/d").unwrap(), vec!["b.txt".to_string(), "e".to_string()]);
    assert!(VirtualFs::from_nested(&n, 3, 100).is_err());
}

fn rejected(r: Result<VirtualFs, String>) -> String {
    match r {
        Ok(_) => panic!("accepted"),
        Err(e) => e,
    }
}

fn leaf(name: &str) -> NestedNode {
    NestedNode {
        name: name.to_string(),
        node: Node::File(FileMeta { size: 1, created_at: 0, modified_at: 0, content: vec![b'x'] }),
        children: None,
    }
}

fn dir(name: &str, kids: Vec<NestedNode>) -> NestedNode {
    NestedNode {
        name: name.to_string(),
        node: Node::Directory(DirMeta { created_at: 0, modified_at: 0, children: Vec::new() }),
        children: Some(kids),
    }
}

#[test]
fn nested_form_is_checked() {
    let e = VirtualFs::from_nested(&dir("/", vec![leaf("a/b")]), 10, 10);
    assert_eq!(rejected(e), "invalid child name 'a/b' at /");
    let e = VirtualFs::from_nested(&dir("/", vec![leaf("a"), leaf("a")]), 10, 10);
    assert_eq!(rejected(e), "duplicate child name 'a' at /");
    let e = VirtualFs::from_nested(&dir("/", vec![leaf("a")]), 1, 10);
    assert_eq!(rejected(e), "max nodes exceeded during deserialization");
    let e = VirtualFs::from_nested(&dir("/", vec![leaf("a")]), 10, 0);
    assert_eq!(rejected(e), "file /a exceeds max file size during deserialization");
    let mut f = leaf("a");
    f.children = Some(Vec::new());
    let e = VirtualFs::from_nested(&dir("/", vec![f]), 10, 10);
    assert_eq!(rejected(e), "node at /a has children but is not a directory");
}

#[test]
fn restored_session_answers_alike() {
    let mut first = ZillSession::new();
    first.run_at("mkdir -p /src/lib && cd /src", 5);
    first.run_at("echo 'fn main() {}' > main.rs; echo 'x = 1' > lib/a.txt; X=7", 6);
    let nested = first.vfs.to_nested().unwrap();
    let vfs = VirtualFs::from_nested(&nested, first.limits.max_nodes, first.limits.max_file_size).unwrap();
    let mut second = ZillSession {
        vfs,
        cwd: first.cwd.clone(),
        env: first.env.duplicate(),
        variables: first.variables.duplicate(),
        limits: first.limits,
        now: first.now,
    };
    for line in ["ls -l /src", "rg -n main /", "fd . /src", "cat lib/a.txt; echo $X", "rm main.rs && ls"] {
        let a = first.run_at(line, 9);
        let b = second.run_at(line, 9);
        assert_eq!((a.stdout, a.stderr, a.exit_code), (b.stdout, b.stderr, b.exit_code), "{}", line);
    }
}

#[test]
fn rg_counts_per_file_within_max_count() {
    let mut s = ZillSession::new();
    run(&mut s, "echo -n 'ab\nab\nab\n' > /f.txt; echo ab > /g.txt");
    assert_eq!(run(&mut s, "rg -c --max-count 2 ab /f.txt").0, "/f.txt:2\n");
    assert_eq!(run(&mut s, "rg -c --max-count 0 ab /f.txt").0, "/f.txt:1\n");
    assert_eq!(run(&mut s, "rg -c ab /").0, "/f.txt:3\n/g.txt:1\n");
    assert_eq!(run(&mut s, "rg -l ab /").0, "/f.txt\n/g.txt\n");
    assert_eq!(run(&mut s, "rg -l zz /").0, "");
}

fn times_of(s: &ZillSession, path: &str) -> (i64, i64) {
    match s.vfs.stat(path).unwrap() {
        Node::File(m) => (m.created_at, m.modified_at),
        Node::Directory(m) => (m.created_at, m.modified_at),
    }
}

#[test]
fn touch_updates_the_modification_time() {
    let mut s = ZillSession::new();
    s.run_at("echo x > /f; mkdir /d", 5);
    assert_eq!(times_of(&s, "/f"), (5, 5));
    let o = s.run_at("touch /f /g /d", 9);
    assert_eq!((o.stdout.as_str(), o.stderr.as_str(), o.exit_code), ("", "", 0));
    assert_eq!(times_of(&s, "/f"), (5, 9));
    assert_eq!(times_of(&s, "/d"), (5, 9));
    assert_eq!(s.vfs.read("/f").unwrap(), b"x\n");
    assert_eq!(s.vfs.read("/g").unwrap(), b"");
    assert_eq!(times_of(&s, "/g"), (9, 9));
}

#[test]
fn rg_match_limit_holds_inside_one_file() {
    let limits = ZillLimits { max_match_count: 2, ..Default::default() };
    let mut s = ZillSession::with_limits(limits);
    run(&mut s, "echo -n 'x1\nx2\nx3\nx4\n' > /a; echo x5 > /b");
    assert_eq!(run(&mut s, "rg x /").0, "/a:x1\n/a:x2\n");
    assert_eq!(run(&mut s, "rg -c x /").0, "/a:2\n");
    let limits = ZillLimits { max_match_count: 0, ..Default::default() };
    let mut s = ZillSession::with_limits(limits);
    run(&mut s, "echo x1 > /a");
    assert_eq!(run(&mut s, "rg x /"), (String::new(), String::new(), 0));
    assert_eq!(run(&mut s, "rg -l x /").0, "");
    assert_eq!(run(&mut s, "rg -c x /").0, "");
}

#[test]
fn every_command_output_is_capped() {
    let limits = ZillLimits { max_output_size: 10, ..Default::default() };
    let mut s = ZillSession::with_limits(limits);
    assert_eq!(run(&mut s, "echo 0123456789abcdef").0, "0123456789");
    run(&mut s, "echo 0123456789abcdef > /f");
    assert_eq!(s.vfs.read("/f").unwrap(), b"0123456789abcdef\n");
    assert_eq!(run(&mut s, "cat /f").0, "0123456789");
    assert_eq!(run(&mut s, "echo short").0, "short\n");
    // a character is never cut in two: each 'é' is two bytes
    assert_eq!(run(&mut s, "echo ééééééé").0, "ééééé");
    assert_eq!(run(&mut s, "echo aéééééé").0, "aéééé");
    // invalid bytes are decoded first, and the decoded text is what is capped
    s.vfs.write("/bin", vec![0xffu8; 20]).unwrap();
    let shown = run(&mut s, "cat /bin").0;
    assert_eq!(shown, "\u{FFFD}\u{FFFD}\u{FFFD}");
    assert!(shown.len() <= 10);
}

#[test]
fn sessions_given_the_same_lines_print_the_same() {
    let lines = ["mkdir -p /src/a", "echo 'fn main() {}' > /src/main.rs", "touch /src/a/x", "ls -l /src", "rg -n main /", "fd . /src"];
    let mut first = ZillSession::new();
    let mut second = ZillSession::new();
    for line in lines {
        let a = first.run(line);
        let b = second.run(line);
        assert_eq!((a.stdout, a.stderr, a.exit_code), (b.stdout, b.stderr, b.exit_code), "{}", line);
    }
}

#[test]
fn root_of_the_nested_form_may_be_a_file() {
    let fs = VirtualFs::from_nested(&leaf("/"), 10, 10).unwrap();
    assert_eq!(fs.node_count(), 1);
    assert!(fs.stat("/").unwrap().is_file());
    assert_eq!(fs.read("/").unwrap(), b"x");
    assert!(matches!(fs.list_dir("/"), Err(ZillError::NotADirectory(_))));
    let n = fs.to_nested().unwrap();
    assert!(n.children.is_none() && n.node.is_file());
    let mut f = leaf("/");
    f.children = Some(Vec::new());
    assert_eq!(rejected(VirtualFs::from_nested(&f, 10, 10)), "node at / has children but is not a directory");
}

#[test]
fn directories_made_before_disk_full_stay() {
    let mut fs = VirtualFs::new(2, 10);
    assert!(matches!(fs.create_file("/a/f", Vec::new()), Err(ZillError::DiskFull)));
    assert!(fs.stat("/a").unwrap().is_dir());
    assert_eq!(fs.node_count(), 2);
    let mut fs = VirtualFs::new(10, 3);
    assert!(matches!(fs.create_file("/x/f", b"long".to_vec()), Err(ZillError::FileTooLarge)));
    assert_eq!(fs.node_count(), 1);
}

#[test]
fn canonical_paths_are_fixed_points() {
    let fs = VirtualFs::new(10, 10);
    let c = fs.canonicalize("/a/b/../../c/./d", "/x");
    assert_eq!(c, "/c/d");
    assert_eq!(fs.canonicalize(&c, "/elsewhere"), c);
    assert_eq!(fs.canonicalize("/a/b/../../c/./d", "/y"), c);
    assert_eq!(fs.canonicalize("../..", "/p/q"), "/");
}

#[test]
fn plain_words_split_at_blanks() {
    let mut p = Parser::new("  echo   a\tb \r\n c  ").unwrap();
    match p.parse().unwrap() {
        AstNode::Command { argv, redirects } => {
            assert_eq!(argv, vec!["echo", "a", "b", "c"]);
            assert!(redirects.is_empty());
        }
        other => panic!("unexpected {:?}", other),
    }
    let mut s = ZillSession::new();
    assert_eq!(run(&mut s, "echo   a\tb").0, "a b\n");
}

#[test]
fn parse_results_have_their_shape() {
    let mut p = Parser::new("a | b | c; d && e; (f)").unwrap();
    match p.parse().unwrap() {
        AstNode::Sequence { nodes } => {
            assert_eq!(nodes.len(), 3);
            assert!(matches!(&nodes[0], AstNode::Pipeline { nodes } if nodes.len() == 3));
            assert!(matches!(&nodes[1], AstNode::Logical { .. }));
            assert!(matches!(&nodes[2], AstNode::Subshell { .. }));
        }
        other => panic!("unexpected {:?}", other),
    }
    let mut p = Parser::new("a;").unwrap();
    assert!(matches!(p.parse().unwrap(), AstNode::Command { .. }));
}
