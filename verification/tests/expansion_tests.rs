//! Variable expansion, double quotes, escapes and the operators the lexer
//! does not take.
use shell::lexer::{lex, try_lex, Lexer};
use shell::token::TokenType;
use shell::tokenizer::tokenize;
use shell::variables::Variables;

fn words_with(input: &str, vars: &Variables) -> (Vec<String>, bool) {
    let (tokens, open) = lex(input, vars);
    let w = tokens
        .into_iter()
        .filter(|t| t.token_type != TokenType::Eof)
        .map(|t| t.literal)
        .collect();
    (w, open)
}

fn home_vars() -> Variables {
    let mut vars = Variables::new();
    vars.set("HOME".to_string(), "/home/me".to_string());
    vars.set("X".to_string(), "a b".to_string());
    vars
}

#[test]
fn dollar_variable_expands() {
    let vars = home_vars();
    assert_eq!(words_with("echo $HOME/x", &vars).0, vec!["echo", "/home/me/x"]);
}

#[test]
fn unset_variable_expands_to_nothing() {
    let vars = home_vars();
    assert_eq!(words_with("echo a$NOPE-b", &vars).0, vec!["echo", "a-b"]);
}

#[test]
fn lone_dollar_stays() {
    let vars = home_vars();
    assert_eq!(words_with("echo $ $-", &vars).0, vec!["echo", "$", "$-"]);
}

#[test]
fn expansion_does_not_split_words() {
    let vars = home_vars();
    assert_eq!(words_with("echo $X", &vars).0, vec!["echo", "a b"]);
}

#[test]
fn later_assignment_wins() {
    let mut vars = Variables::new();
    vars.set("V".to_string(), "one".to_string());
    vars.set("V".to_string(), "two".to_string());
    assert_eq!(words_with("$V", &vars).0, vec!["two"]);
    let name: Vec<char> = "V".chars().collect();
    assert_eq!(vars.get(&name).map(|s| s.as_str()), Some("two"));
    let other: Vec<char> = "W".chars().collect();
    assert!(vars.get(&other).is_none());
}

#[test]
fn double_quotes_expand_and_keep_spaces() {
    let vars = home_vars();
    assert_eq!(words_with("echo \"$HOME  dir\"", &vars).0, vec!["echo", "/home/me  dir"]);
}

#[test]
fn double_quote_escapes() {
    let vars = Variables::new();
    assert_eq!(words_with(r#""a\"b\\c\$d\x""#, &vars).0, vec![r#"a"b\c$d\x"#]);
}

#[test]
fn unterminated_double_quote_reports_open() {
    let vars = Variables::new();
    let (w, open) = words_with("echo \"abc", &vars);
    assert_eq!(w, vec!["echo", "abc"]);
    assert!(open);
}

#[test]
fn backslash_escapes_next_character() {
    let vars = Variables::new();
    assert_eq!(words_with(r"a\ b \> c\", &vars).0, vec!["a b", ">", "c"]);
}

#[test]
fn single_quotes_inside_double_quotes_are_literal() {
    let vars = Variables::new();
    assert_eq!(words_with("\"it's\"", &vars), (vec!["it's".to_string()], false));
}

#[test]
fn unsupported_operators_are_refused() {
    let vars = Variables::new();
    assert!(try_lex("ls | wc", &vars).is_none());
    assert!(try_lex("a && b", &vars).is_none());
    assert!(try_lex("a ; b", &vars).is_none());
    assert!(try_lex("cat < f", &vars).is_none());
    assert!(try_lex("echo '|'", &vars).is_some());
}

#[test]
fn try_lex_matches_lex() {
    let vars = home_vars();
    let (tokens, open) = try_lex("echo 2>>$HOME", &vars).unwrap();
    assert!(!open);
    let kinds: Vec<TokenType> = tokens.iter().map(|t| t.token_type).collect();
    assert_eq!(
        kinds,
        vec![TokenType::Word, TokenType::IoNumber, TokenType::GtGt, TokenType::Word, TokenType::Eof]
    );
    assert_eq!(tokens[3].literal, "/home/me");
}

#[test]
fn lexer_token_by_token() {
    let vars = Variables::new();
    let mut lexer = Lexer::new("a 'b", &vars);
    let t1 = lexer.next_token();
    assert_eq!((t1.token_type, t1.literal.as_str()), (TokenType::Word, "a"));
    let t2 = lexer.next_token();
    assert_eq!((t2.token_type, t2.literal.as_str()), (TokenType::Word, "b"));
    let t3 = lexer.next_token();
    assert_eq!(t3.token_type, TokenType::Eof);
    // The end of input keeps answering end of input.
    assert_eq!(lexer.next_token().token_type, TokenType::Eof);
    assert!(lexer.is_unterminated());
}

#[test]
fn lex_output_ends_with_one_eof() {
    let vars = Variables::new();
    for line in ["", "a", "a > b", "'x", "1>>2"] {
        let (tokens, _) = lex(line, &vars);
        assert_eq!(tokens.last().unwrap().token_type, TokenType::Eof);
        let eofs = tokens.iter().filter(|t| t.token_type == TokenType::Eof).count();
        assert_eq!(eofs, 1);
        assert!(tokens.iter().all(|t| t.token_type != TokenType::Illegal));
    }
}

#[test]
fn tokenize_flag_is_odd_quote_count() {
    for (line, open) in [("'", true), ("''", false), ("a'b'c'", true), ("'a b' 'c", true)] {
        assert_eq!(tokenize(line).1, open);
        assert!(tokenize(line).0.iter().all(|w| !w.contains('\'')));
    }
}

#[test]
fn lex_agrees_with_tokenize_on_plain_text() {
    let vars = Variables::new();
    for line in ["echo 'hello world' foo", "a  b\tc\n", "'a'b'c", "''", "x 'y", "12 ab", ""] {
        let (tokens, open) = lex(line, &vars);
        let (words, topen) = tokenize(line);
        assert_eq!(open, topen);
        assert_eq!(tokens.len(), words.len() + 1);
        for (t, w) in tokens.iter().zip(words.iter()) {
            assert_eq!(t.token_type, TokenType::Word);
            assert_eq!(&t.literal, w);
        }
        assert_eq!(tokens.last().unwrap().token_type, TokenType::Eof);
    }
}

#[test]
fn tokenize_without_quotes_splits_at_white_space() {
    for line in ["a b", "  a\u{a0}b\u{3000}c  ", "", "x\ty\nz"] {
        let words: Vec<String> = line.split_whitespace().map(String::from).collect();
        assert_eq!(tokenize(line), (words, false));
    }
}

#[test]
fn end_of_input_token_repeats() {
    let vars = Variables::new();
    let mut lexer = Lexer::new("a 'b c", &vars);
    assert_eq!(lexer.next_token().token_type, TokenType::Word);
    assert!(!lexer.is_unterminated());
    let t = lexer.next_token();
    assert_eq!((t.token_type, t.literal.as_str()), (TokenType::Word, "b c"));
    assert!(lexer.is_unterminated());
    for _ in 0..3 {
        let e = lexer.next_token();
        assert_eq!((e.token_type, e.literal.as_str()), (TokenType::Eof, ""));
        assert!(lexer.is_unterminated());
    }
}
