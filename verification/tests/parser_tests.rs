//! Parsing command lines into simple commands with redirections.
use shell::ast::RedirOp;
use shell::lexer::lex;
use shell::parser::{ParseError, Parser};
use shell::token::{Token, TokenType};
use shell::variables::Variables;

fn parse_line(line: &str) -> Result<Option<(Vec<String>, Vec<(u32, RedirOp, String)>)>, ParseError> {
    let vars = Variables::new();
    let (tokens, _) = lex(line, &vars);
    let mut parser = Parser::new(tokens);
    parser.parse_result().map(|c| {
        c.map(|c| {
            let redirs = c.redirs.into_iter().map(|r| (r.fd, r.op, r.target)).collect();
            (c.argv, redirs)
        })
    })
}

fn words(v: &[&str]) -> Vec<String> {
    v.iter().map(|x| x.to_string()).collect()
}

#[test]
fn parse_plain_words() {
    let (argv, redirs) = parse_line("echo hello world").unwrap().unwrap();
    assert_eq!(argv, words(&["echo", "hello", "world"]));
    assert!(redirs.is_empty());
}

#[test]
fn parse_empty_line_has_no_command() {
    assert!(parse_line("").unwrap().is_none());
    assert!(parse_line("   \n").unwrap().is_none());
}

#[test]
fn parse_redirection_defaults_to_stdout() {
    let (argv, redirs) = parse_line("echo hi > out.txt").unwrap().unwrap();
    assert_eq!(argv, words(&["echo", "hi"]));
    assert_eq!(redirs, vec![(1, RedirOp::Out, "out.txt".to_string())]);
}

#[test]
fn parse_append_redirection() {
    let (_, redirs) = parse_line("echo hi >> log").unwrap().unwrap();
    assert_eq!(redirs, vec![(1, RedirOp::Append, "log".to_string())]);
}

#[test]
fn parse_io_number_redirections_in_order() {
    let (argv, redirs) = parse_line("cmd 2> err 1>>out arg").unwrap().unwrap();
    assert_eq!(argv, words(&["cmd", "arg"]));
    assert_eq!(
        redirs,
        vec![(2, RedirOp::Out, "err".to_string()), (1, RedirOp::Append, "out".to_string())]
    );
}

#[test]
fn parse_io_number_with_leading_zeros() {
    let (_, redirs) = parse_line("cmd 007>x").unwrap().unwrap();
    assert_eq!(redirs, vec![(7, RedirOp::Out, "x".to_string())]);
}

#[test]
fn parse_redirection_without_command_word() {
    // A redirection alone names no command.
    assert!(parse_line("> out").unwrap().is_none());
}

#[test]
fn parse_spaced_double_gt_is_rejected() {
    match parse_line("echo > > foo") {
        Err(ParseError::NonWordTarget(t)) => {
            assert_eq!(t.token_type, TokenType::Gt);
            assert_eq!(t.literal, ">");
        },
        _ => panic!("expected a non-word target"),
    }
}

#[test]
fn parse_missing_target_is_rejected() {
    match parse_line("echo >") {
        Err(ParseError::NonWordTarget(t)) => assert_eq!(t.token_type, TokenType::Eof),
        _ => panic!("expected a non-word target"),
    }
}

#[test]
fn parse_io_number_too_large_is_rejected() {
    match parse_line("echo 4294967296>x") {
        Err(ParseError::InvalidIoNumber(s)) => assert_eq!(s, "4294967296"),
        _ => panic!("expected an invalid descriptor number"),
    }
    // The largest 32-bit value is accepted.
    let (_, redirs) = parse_line("echo 4294967295>x").unwrap().unwrap();
    assert_eq!(redirs, vec![(4294967295, RedirOp::Out, "x".to_string())]);
}

#[test]
fn parse_isolated_io_number_is_rejected() {
    // An IoNumber token that is not followed by `>` or `>>`.
    let tokens = vec![
        Token::new(TokenType::Word, "echo".to_string()),
        Token::new(TokenType::IoNumber, "1".to_string()),
        Token::new(TokenType::Word, "x".to_string()),
        Token::new(TokenType::Eof, String::new()),
    ];
    let mut parser = Parser::new(tokens);
    assert!(matches!(parser.parse_result(), Err(ParseError::IsolatedIoNumber)));
}

#[test]
fn parse_without_eof_token_stops_at_the_end() {
    let tokens = vec![Token::new(TokenType::Word, "ls".to_string())];
    let mut parser = Parser::new(tokens);
    let c = parser.parse().unwrap();
    assert_eq!(c.argv, words(&["ls"]));
}

#[test]
fn parse_reports_errors_as_none() {
    let vars = Variables::new();
    let (tokens, _) = lex("echo > > foo", &vars);
    let mut parser = Parser::new(tokens);
    assert!(parser.parse().is_none());
}

#[test]
fn parse_quoted_target() {
    let (_, redirs) = parse_line("echo hi > 'my file'").unwrap().unwrap();
    assert_eq!(redirs, vec![(1, RedirOp::Out, "my file".to_string())]);
}

#[test]
fn parse_ignores_tokens_after_end_of_input() {
    let a = || {
        vec![
            Token::new(TokenType::Word, "echo".to_string()),
            Token::new(TokenType::Gt, ">".to_string()),
            Token::new(TokenType::Word, "f".to_string()),
        ]
    };
    let mut with_tail = a();
    with_tail.push(Token::new(TokenType::Eof, String::new()));
    with_tail.push(Token::new(TokenType::Gt, ">".to_string()));
    let c1 = Parser::new(a()).parse().unwrap();
    let c2 = Parser::new(with_tail).parse().unwrap();
    assert_eq!(c1.argv, c2.argv);
    assert_eq!(c1.redirs.len(), 1);
    assert_eq!(c2.redirs.len(), 1);
    assert_eq!(c2.redirs[0].target, "f");
}
