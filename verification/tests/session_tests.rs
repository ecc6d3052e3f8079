use zill::fs::VirtualFs;
use zill::ZillSession;

#[test]
fn test_session_basic() {
    let mut session = ZillSession::new();
    let out = session.run("pwd");
    assert_eq!(out.stdout, "/\n");

    session.run("mkdir /test");
    let out = session.run("ls /");
    assert!(out.stdout.contains("test"));
}

#[test]
fn test_redirection() {
    let mut session = ZillSession::new();
    session.run("echo hello > /file.txt");
    let out = session.run("cat /file.txt");
    assert_eq!(out.stdout, "hello\n");

    session.run("echo world >> /file.txt");
    let out = session.run("cat /file.txt");
    assert_eq!(out.stdout, "hello\nworld\n");
}

#[test]
fn test_serialization() {
    let mut session = ZillSession::new();
    session.run("mkdir /test");
    session.run("echo 'hello' > /test/hi.txt");
    session.cwd = "/test".to_string();

    let nested = session.vfs.to_nested().unwrap();
    let vfs = VirtualFs::from_nested(&nested, session.limits.max_nodes, session.limits.max_file_size).unwrap();
    let mut session2 = ZillSession {
        vfs,
        cwd: session.cwd.clone(),
        env: session.env.duplicate(),
        variables: session.variables.duplicate(),
        limits: session.limits,
        now: session.now,
    };

    assert_eq!(session2.cwd, "/test".to_string());
    let out = session2.run("cat hi.txt");
    assert_eq!(out.stdout, "hello\n");
}

#[test]
fn test_rg() {
    let mut session = ZillSession::new();
    session.run("echo 'hello world' > f1.txt");
    session.run("echo 'goodbye world' > f2.txt");
    session.run("echo 'hello again' > f3.txt");

    let out = session.run("rg hello");
    assert!(out.stdout.contains("f1.txt:hello world"));
    assert!(out.stdout.contains("f3.txt:hello again"));
    assert!(!out.stdout.contains("f2.txt"));

    let out = session.run("rg -c world");
    assert!(out.stdout.contains("f1.txt:1"));
    assert!(out.stdout.contains("f2.txt:1"));
}

#[test]
fn test_pipeline() {
    let mut session = ZillSession::new();
    session.run("echo hello | cat > /file.txt");
    let out = session.run("cat /file.txt");
    assert_eq!(out.stdout, "hello\n");
}

#[test]
fn test_variables() {
    let mut session = ZillSession::new();
    session.run("GREETING=hello");
    let out = session.run("echo $GREETING world");
    assert_eq!(out.stdout, "hello world\n");
}

#[test]
fn test_logical() {
    let mut session = ZillSession::new();
    let out = session.run("echo a && echo b");
    assert_eq!(out.stdout, "a\nb\n");

    let out = session.run("false || echo c");
    assert!(out.stdout.contains("c"));

    let out = session.run("nonexistent || echo d");
    assert!(out.stderr.contains("command not found"));
    assert!(out.stdout.contains("d"));
}

#[test]
fn test_if() {
    let mut session = ZillSession::new();
    let out = session.run("if true; then echo yes; fi");
    assert_eq!(out.stdout, "yes\n");

    let out = session.run("if false; then echo yes; else echo no; fi");
    assert_eq!(out.stdout, "no\n");
}

#[test]
fn test_for() {
    let mut session = ZillSession::new();
    let out = session.run("for i in a b c; do echo $i; done");
    assert_eq!(out.stdout, "a\nb\nc\n");
}

#[test]
fn test_subshell_isolation() {
    let mut session = ZillSession::new();
    session.run("(FOO=bar; cd /test)");
    let out = session.run("echo $FOO");
    assert_eq!(out.stdout, "\n");
    assert_eq!(session.cwd, "/".to_string());
}

#[test]
fn test_variable_expansion_refined() {
    let mut session = ZillSession::new();
    session.run("V=1; VAR=2");
    let out = session.run("echo $V $VAR");
    assert_eq!(out.stdout, "1 2\n");
}

#[test]
fn test_quoted_meta() {
    let mut session = ZillSession::new();
    let out = session.run("echo \"a|b\"");
    assert_eq!(out.stdout, "a|b\n");
}

#[test]
fn test_fd() {
    let mut session = ZillSession::new();
    session.run("mkdir -p /a/b/c");
    session.run("touch /a/b/f1.txt");
    session.run("touch /a/b/c/f2.rs");
    session.run("touch /.hidden");

    let out = session.run("fd");
    assert!(out.stdout.contains("/a"));
    assert!(out.stdout.contains("/a/b"));
    assert!(out.stdout.contains("/a/b/f1.txt"));
    assert!(out.stdout.contains("/a/b/c/f2.rs"));
    assert!(!out.stdout.contains(".hidden"));

    let out = session.run("fd -e rs");
    assert!(!out.stdout.contains("f1.txt"));
    assert!(out.stdout.contains("f2.rs"));

    let out = session.run("fd f1");
    assert!(out.stdout.contains("f1.txt"));
    assert!(!out.stdout.contains("f2.rs"));

    let out = session.run("fd -H .hidden");
    assert!(out.stdout.contains(".hidden"));
}
