//! The builtins' decisions and output.
use shell::ast::{RedirOp, Redirection};
use shell::evaluator::{redirections_for, Builtin, Evaluator};

fn strs(v: &[&str]) -> Vec<String> {
    v.iter().map(|x| x.to_string()).collect()
}

#[test]
fn builtin_names_in_table_order() {
    let e = Evaluator::new();
    assert_eq!(e.builtin_names(), vec!["exit", "echo", "type", "pwd", "cd"]);
}

#[test]
fn builtin_lookup() {
    let e = Evaluator::new();
    assert_eq!(e.builtin("echo"), Some(Builtin::Echo));
    assert_eq!(e.builtin("exit"), Some(Builtin::Exit));
    assert_eq!(e.builtin("type"), Some(Builtin::Type));
    assert_eq!(e.builtin("pwd"), Some(Builtin::Pwd));
    assert_eq!(e.builtin("cd"), Some(Builtin::Cd));
    assert_eq!(e.builtin("ls"), None);
    assert_eq!(e.builtin("Echo"), None);
    assert_eq!(e.builtin(""), None);
}

#[test]
fn echo_joins_with_spaces() {
    let e = Evaluator::new();
    assert_eq!(e.builtin_echo(&strs(&["hello", "world"])), "hello world\n");
    assert_eq!(e.builtin_echo(&strs(&["a  b", "", "c"])), "a  b  c\n");
    assert_eq!(e.builtin_echo(&[]), "\n");
}

#[test]
fn type_of_builtin() {
    let e = Evaluator::new();
    let o = e.builtin_type(&strs(&["echo"]), None);
    assert_eq!(o.out, "echo is a shell builtin\n");
    assert_eq!(o.err, "");
}

#[test]
fn type_of_found_executable() {
    let e = Evaluator::new();
    let o = e.builtin_type(&strs(&["ls", "x"]), Some("/bin/ls"));
    assert_eq!(o.out, "ls is /bin/ls\n");
    assert_eq!(o.err, "");
}

#[test]
fn type_of_missing_command() {
    let e = Evaluator::new();
    let o = e.builtin_type(&strs(&["nope"]), None);
    assert_eq!(o.out, "");
    assert_eq!(o.err, "nope: not found\n");
}

#[test]
fn type_without_argument_says_nothing() {
    let e = Evaluator::new();
    let o = e.builtin_type(&[], None);
    assert_eq!((o.out.as_str(), o.err.as_str()), ("", ""));
}

#[test]
fn cd_targets() {
    let e = Evaluator::new();
    let home = "/home/me";
    let p = e.builtin_cd(&[], home);
    assert_eq!((p.target.as_str(), p.warning.as_str()), ("/home/me", ""));
    assert_eq!(e.builtin_cd(&strs(&["~"]), home).target, "/home/me");
    assert_eq!(e.builtin_cd(&strs(&["~/src"]), home).target, "/home/me/src");
    assert_eq!(e.builtin_cd(&strs(&["~x"]), home).target, "~x");
    assert_eq!(e.builtin_cd(&strs(&["/tmp"]), home).target, "/tmp");
    assert_eq!(e.builtin_cd(&strs(&["a/~"]), home).target, "a/~");
    assert_eq!(e.builtin_cd(&strs(&["~"]), "").target, "");
}

#[test]
fn cd_with_too_many_arguments_warns_and_uses_first() {
    let e = Evaluator::new();
    let p = e.builtin_cd(&strs(&["/a", "/b"]), "/h");
    assert_eq!(p.warning, "Too many args for cd command\n");
    assert_eq!(p.target, "/a");
}

#[test]
fn redirections_for_descriptor() {
    let r = |fd: u32, op: RedirOp, t: &str| Redirection { fd, op, target: t.to_string() };
    let redirs = vec![
        r(1, RedirOp::Out, "a"),
        r(2, RedirOp::Out, "b"),
        r(1, RedirOp::Append, "c"),
        r(3, RedirOp::Out, "d"),
    ];
    assert_eq!(redirections_for(&redirs, 1), vec![0, 2]);
    assert_eq!(redirections_for(&redirs, 2), vec![1]);
    assert_eq!(redirections_for(&redirs, 0), Vec::<usize>::new());
    assert_eq!(redirections_for(&[], 1), Vec::<usize>::new());
}
