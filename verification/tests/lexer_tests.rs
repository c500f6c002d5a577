//! The lexer's behaviour on whole command lines.
use shell::lexer::lex;
use shell::token::TokenType;
use shell::variables::Variables;

/// Token literals with the trailing end-of-input token removed, and the
/// unterminated-quote flag.
fn tok_and_open(input: &str) -> (Vec<String>, bool) {
    let vars = Variables::new();
    let (tokens, unterminated) = lex(input, &vars);
    let literals = tokens
    .into_iter()
    .filter(|t| t.token_type != TokenType::Eof)
    .map(|t| t.literal)
    .collect();
    (literals, unterminated)
}

fn tok(input: &str) -> Vec<String> {
    tok_and_open(input).0
}

fn open(input: &str) -> bool {
    let vars = Variables::new();
    lex(input, &vars).1
}

/// (kind, literal) pairs with the trailing end-of-input token removed.
fn typed_tok(input: &str) -> Vec<(TokenType, String)> {
    let vars = Variables::new();
    lex(input, &vars)
    .0
    .into_iter()
    .filter(|t| t.token_type != TokenType::Eof)
    .map(|t| (t.token_type, t.literal))
    .collect()
}

#[test]
fn lexer_empty_input() {
    assert_eq!(tok(""), Vec::<String>::new());
    assert!(!open(""));
}

#[test]
fn lexer_whitespace_only() {
    assert_eq!(tok("   "), Vec::<String>::new());
    assert!(!open("   "));
}

#[test]
fn lexer_tabs_and_newlines_only() {
    assert_eq!(tok("\t\n  \t"), Vec::<String>::new());
    assert!(!open("\t\n  \t"));
}

#[test]
fn lexer_single_word() {
    assert_eq!(tok("echo"), vec!["echo"]);
}

#[test]
fn lexer_two_words() {
    assert_eq!(tok("echo hello"), vec!["echo", "hello"]);
}

#[test]
fn lexer_many_words() {
    assert_eq!(tok("a b c d e"), vec!["a", "b", "c", "d", "e"]);
}

#[test]
fn lexer_collapses_multiple_spaces() {
    assert_eq!(tok("a    b"), vec!["a", "b"]);
}

#[test]
fn lexer_mixed_whitespace_separators() {
    assert_eq!(tok("a\tb\nc  d"), vec!["a", "b", "c", "d"]);
}

#[test]
fn lexer_leading_whitespace_ignored() {
    assert_eq!(tok("   echo hi"), vec!["echo", "hi"]);
}

#[test]
fn lexer_trailing_whitespace_ignored() {
    assert_eq!(tok("echo hi   "), vec!["echo", "hi"]);
}

#[test]
fn lexer_surrounding_whitespace_ignored() {
    assert_eq!(tok("   echo hi   "), vec!["echo", "hi"]);
}

#[test]
fn lexer_quotes_preserve_internal_spaces() {
    assert_eq!(tok("echo 'hello world'"), vec!["echo", "hello world"]);
}

#[test]
fn lexer_quotes_preserve_runs_of_internal_spaces() {
    assert_eq!(tok("echo 'hello   world'"), vec!["echo", "hello   world"]);
}

#[test]
fn lexer_quotes_strip_the_quote_characters() {
    assert_eq!(tok("'abc'"), vec!["abc"]);
}

#[test]
fn lexer_empty_quotes_produce_empty_token() {
    assert_eq!(tok("echo ''"), vec!["echo", ""]);
}

#[test]
fn lexer_empty_quotes_alone() {
    assert_eq!(tok("''"), vec![""]);
}

#[test]
fn lexer_multiple_empty_quoted_tokens() {
    assert_eq!(tok("'' '' ''"), vec!["", "", ""]);
}

#[test]
fn lexer_quotes_preserve_tabs() {
    assert_eq!(tok("'a\tb'"), vec!["a\tb"]);
}

#[test]
fn lexer_quotes_preserve_newlines() {
    assert_eq!(tok("'a\nb'"), vec!["a\nb"]);
}

#[test]
fn lexer_newline_inside_quote_across_logical_input() {
    // simulates the buffer after a continuation read
    let (tokens, unterminated) = tok_and_open("echo 'hello\nworld'");
    assert_eq!(tokens, vec!["echo", "hello\nworld"]);
    assert!(!unterminated);
}

#[test]
fn lexer_adjacent_quoted_segments_form_one_token() {
    // 'foo''bar' should be a single token "foobar" - quotes are mode toggles
    assert_eq!(tok("'foo''bar'"), vec!["foobar"]);
}

#[test]
fn lexer_quoted_and_unquoted_concatenate() {
    // foo'bar baz'qux -> "foobar bazqux"
    assert_eq!(tok("foo'bar baz'qux"), vec!["foobar bazqux"]);
}

#[test]
fn lexer_quote_at_start_of_token() {
    assert_eq!(tok("'hello'world"), vec!["helloworld"]);
}

#[test]
fn lexer_quote_at_end_of_token() {
    assert_eq!(tok("hello'world'"), vec!["helloworld"]);
}

#[test]
fn lexer_quoted_and_unquoted_args_mixed() {
    assert_eq!(
        tok("echo 'hello world' foo 'bar baz'"),
        vec!["echo", "hello world", "foo", "bar baz"]
    );
}

#[test]
fn lexer_unquoted_then_empty_quote() {
    assert_eq!(tok("echo a ''"), vec!["echo", "a", ""]);
}

#[test]
fn lexer_unicode_content() {
    assert_eq!(tok("echo café"), vec!["echo", "café"]);
}

#[test]
fn lexer_unicode_inside_quotes() {
    assert_eq!(tok("'caf\u{00e9} ☕'"), vec!["café ☕"]);
}

#[test]
fn lexer_special_chars_outside_quotes() {
    // `$VAR` expands at lex time; single quotes suppress the expansion, so
    // special characters in mixed quoted and unquoted arguments survive.
    assert_eq!(
        tok("echo '$HOME' /tmp/foo-bar.txt"),
        vec!["echo", "$HOME", "/tmp/foo-bar.txt"]
    );
}

#[test]
fn lexer_balanced_quotes_report_closed() {
    assert!(!open("echo 'hello'"));
}

#[test]
fn lexer_no_quotes_report_closed() {
    assert!(!open("echo hello"));
}

#[test]
fn lexer_opening_quote_reports_open() {
    let (tokens, unterminated) = tok_and_open("echo 'hello");
    assert_eq!(tokens, vec!["echo", "hello"]);
    assert!(unterminated);
}

#[test]
fn lexer_unterminated_quote_preserves_internal_whitespace() {
    let (tokens, unterminated) = tok_and_open("echo 'a b c");
    assert_eq!(tokens, vec!["echo", "a b c"]);
    assert!(unterminated);
}

#[test]
fn lexer_lone_opening_quote_reports_open() {
    let (tokens, unterminated) = tok_and_open("'");
    assert_eq!(tokens, vec![""]);
    assert!(unterminated);
}

#[test]
fn lexer_three_quotes_report_open() {
    // odd number of quotes => unbalanced
    let (tokens, unterminated) = tok_and_open("'a'b'c");
    assert_eq!(tokens, vec!["abc"]);
    assert!(unterminated);
}

#[test]
fn lexer_four_quotes_report_closed() {
    // even number of quotes => balanced
    assert!(!open("'a'b'c'"));
}

#[test]
fn redirect_out_emits_gt() {
    assert_eq!(
        typed_tok("echo > foo"),
        vec![
            (TokenType::Word, "echo".into()),
            (TokenType::Gt, ">".into()),
            (TokenType::Word, "foo".into()),
        ]
    );
}

#[test]
fn redirect_out_glued_to_words() {
    // `>` is a word terminator, so no whitespace is required around it
    assert_eq!(
        typed_tok("echo>foo"),
        vec![
            (TokenType::Word, "echo".into()),
            (TokenType::Gt, ">".into()),
            (TokenType::Word, "foo".into()),
        ]
    );
}

#[test]
fn bare_redirect_operator() {
    assert_eq!(typed_tok(">"), vec![(TokenType::Gt, ">".into())]);
}

#[test]
fn double_redirect_operator_lexes_normally() {
    // `echo > > foo` is a syntax error, but the lexer emits tokens normally;
    // detecting the error is the parser's job.
    assert_eq!(
        typed_tok("echo > > foo"),
        vec![
            (TokenType::Word, "echo".into()),
            (TokenType::Gt, ">".into()),
            (TokenType::Gt, ">".into()),
            (TokenType::Word, "foo".into()),
        ]
    );
}

#[test]
fn io_number_with_space_after_operator() {
    assert_eq!(
        typed_tok("echo 1> foo"),
        vec![
            (TokenType::Word, "echo".into()),
            (TokenType::IoNumber, "1".into()),
            (TokenType::Gt, ">".into()),
            (TokenType::Word, "foo".into()),
        ]
    );
}

#[test]
fn io_number_glued_to_operator_and_target() {
    assert_eq!(
        typed_tok("echo 1>foo"),
        vec![
            (TokenType::Word, "echo".into()),
            (TokenType::IoNumber, "1".into()),
            (TokenType::Gt, ">".into()),
            (TokenType::Word, "foo".into()),
        ]
    );
}

#[test]
fn io_number_multi_digit() {
    // POSIX places no upper bound on the fd in an IO_NUMBER
    assert_eq!(
        typed_tok("echo 99>foo"),
        vec![
            (TokenType::Word, "echo".into()),
            (TokenType::IoNumber, "99".into()),
            (TokenType::Gt, ">".into()),
            (TokenType::Word, "foo".into()),
        ]
    );
}

#[test]
fn digit_separated_from_operator_by_space_is_a_word() {
    // whitespace between the digits and `>` means the digits are an
    // ordinary argument, not an fd prefix
    assert_eq!(
        typed_tok("echo 1 > foo"),
        vec![
            (TokenType::Word, "echo".into()),
            (TokenType::Word, "1".into()),
            (TokenType::Gt, ">".into()),
            (TokenType::Word, "foo".into()),
        ]
    );
}

#[test]
fn digit_run_not_before_operator_is_a_word() {
    // digits followed by non-redirect characters fold into a normal word
    assert_eq!(typed_tok("12foo"), vec![(TokenType::Word, "12foo".into())]);
}

#[test]
fn digit_run_at_eof_is_a_word() {
    // digits with nothing after them: the digits fold into a word
    assert_eq!(typed_tok("12"), vec![(TokenType::Word, "12".into())]);
}

#[test]
fn append_out_emits_gtgt() {
    assert_eq!(
        typed_tok("echo >> foo"),
        vec![
            (TokenType::Word, "echo".into()),
            (TokenType::GtGt, ">>".into()),
            (TokenType::Word, "foo".into()),
        ]
    );
}

#[test]
fn append_out_glued_to_words() {
    // `>` terminates a word, so no whitespace is required around `>>`
    assert_eq!(
        typed_tok("echo>>foo"),
        vec![
            (TokenType::Word, "echo".into()),
            (TokenType::GtGt, ">>".into()),
            (TokenType::Word, "foo".into()),
        ]
    );
}

#[test]
fn bare_append_operator() {
    assert_eq!(typed_tok(">>"), vec![(TokenType::GtGt, ">>".into())]);
}

#[test]
fn io_number_before_append() {
    assert_eq!(
        typed_tok("echo 1>>foo"),
        vec![
            (TokenType::Word, "echo".into()),
            (TokenType::IoNumber, "1".into()),
            (TokenType::GtGt, ">>".into()),
            (TokenType::Word, "foo".into()),
        ]
    );
}

#[test]
fn io_number_before_append_with_space() {
    assert_eq!(
        typed_tok("echo 2>> foo"),
        vec![
            (TokenType::Word, "echo".into()),
            (TokenType::IoNumber, "2".into()),
            (TokenType::GtGt, ">>".into()),
            (TokenType::Word, "foo".into()),
        ]
    );
}

#[test]
fn spaced_redirects_are_two_gt_not_gtgt() {
    // `> >` (whitespace between) must stay two separate `Gt` tokens —
    // only adjacent `>>` pairs into a single `GtGt`. This is what lets
    // the parser reject `> >` as a syntax error while accepting `>>`.
    assert_eq!(
        typed_tok("echo > > foo"),
        vec![
            (TokenType::Word, "echo".into()),
            (TokenType::Gt, ">".into()),
            (TokenType::Gt, ">".into()),
            (TokenType::Word, "foo".into()),
        ]
    );
}

#[test]
fn triple_redirect_pairs_greedily() {
    // `>>>` pairs the first two into `GtGt`; the third is a lone `Gt`
    assert_eq!(
        typed_tok("echo >>> foo"),
        vec![
            (TokenType::Word, "echo".into()),
            (TokenType::GtGt, ">>".into()),
            (TokenType::Gt, ">".into()),
            (TokenType::Word, "foo".into()),
        ]
    );
}
