//! The shell's read loop: gathering lines while a quote is open, and what
//! it does with a complete command line.
use shell::ast::RedirOp;
use shell::parser::ParseError;
use shell::shell::{CommandReader, ReadStep, Shell, ShellAction};
use shell::token::TokenType;
use shell::variables::Variables;

fn line(s: &str) -> Option<String> {
    Some(s.to_string())
}

#[test]
fn new_shell_prompts_for_a_command() {
    let sh = Shell::new();
    assert_eq!(sh.prompt(), "$ ");
    assert_eq!(
        sh.get_evaluator().builtin_names(),
        vec!["exit", "echo", "type", "pwd", "cd"]
    );
}

#[test]
fn complete_line_runs_a_command() {
    let mut sh = Shell::new();
    let vars = Variables::new();
    match sh.run(line("echo hi > out\n"), &vars) {
        ShellAction::Run(c) => {
            assert_eq!(c.argv, vec!["echo", "hi"]);
            assert_eq!(c.redirs.len(), 1);
            assert_eq!((c.redirs[0].fd, c.redirs[0].op), (1, RedirOp::Out));
            assert_eq!(c.redirs[0].target, "out");
        },
        _ => panic!("expected a command"),
    }
    assert_eq!(sh.prompt(), "$ ");
}

#[test]
fn open_quote_continues_on_the_next_line() {
    let mut sh = Shell::new();
    let vars = Variables::new();
    assert!(matches!(sh.run(line("echo 'hello\n"), &vars), ShellAction::Continue));
    assert_eq!(sh.prompt(), "> ");
    match sh.run(line("world'\n"), &vars) {
        ShellAction::Run(c) => assert_eq!(c.argv, vec!["echo", "hello\nworld"]),
        _ => panic!("expected a command"),
    }
    assert_eq!(sh.prompt(), "$ ");
}

#[test]
fn end_of_input_inside_a_quote_cancels() {
    let mut sh = Shell::new();
    let vars = Variables::new();
    assert!(matches!(sh.run(line("echo \"abc\n"), &vars), ShellAction::Continue));
    assert!(matches!(sh.run(None, &vars), ShellAction::Cancelled));
    assert_eq!(sh.prompt(), "$ ");
    assert!(matches!(sh.run(None, &vars), ShellAction::Exit));
}

#[test]
fn end_of_input_exits() {
    let mut sh = Shell::new();
    let vars = Variables::new();
    assert!(matches!(sh.run(None, &vars), ShellAction::Exit));
}

#[test]
fn blank_line_runs_nothing() {
    let mut sh = Shell::new();
    let vars = Variables::new();
    assert!(matches!(sh.run(line("\n"), &vars), ShellAction::Empty));
    assert!(matches!(sh.run(line("   > x\n"), &vars), ShellAction::Empty));
}

#[test]
fn malformed_line_is_reported() {
    let mut sh = Shell::new();
    let vars = Variables::new();
    match sh.run(line("echo > > foo\n"), &vars) {
        ShellAction::Failed(ParseError::NonWordTarget(t)) => assert_eq!(t.token_type, TokenType::Gt),
        _ => panic!("expected a parse error"),
    }
}

#[test]
fn pipe_is_unsupported() {
    let mut sh = Shell::new();
    let vars = Variables::new();
    assert!(matches!(sh.run(line("ls | wc\n"), &vars), ShellAction::Unsupported));
    assert_eq!(sh.prompt(), "$ ");
}

#[test]
fn variables_expand_in_commands() {
    let mut sh = Shell::new();
    let mut vars = Variables::new();
    vars.set("NAME".to_string(), "world".to_string());
    match sh.run(line("echo \"hello $NAME\"\n"), &vars) {
        ShellAction::Run(c) => assert_eq!(c.argv, vec!["echo", "hello world"]),
        _ => panic!("expected a command"),
    }
}

#[test]
fn reader_steps() {
    let mut r = CommandReader::new();
    let vars = Variables::new();
    assert_eq!(r.prompt(), "$ ");
    assert!(matches!(r.on_line(line("a 'b\n"), &vars), ReadStep::Continue));
    assert_eq!(r.prompt(), "> ");
    match r.on_line(line("c'\n"), &vars) {
        ReadStep::Command(tokens) => {
            let lits: Vec<String> = tokens.into_iter().map(|t| t.literal).collect();
            assert_eq!(lits, vec!["a", "b\nc", ""]);
        },
        _ => panic!("expected tokens"),
    }
    assert!(matches!(r.on_line(line("x & y\n"), &vars), ReadStep::Unsupported));
    assert!(matches!(r.on_line(None, &vars), ReadStep::Exit));
}
