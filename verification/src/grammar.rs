//! The command-line grammar that the lexer implements, stated over the
//! input's characters and positions in it.
use vstd::prelude::*;
use crate::token::TokenType;
use crate::text::unicode_alphanumeric;
use crate::variables::lookup_var;

verus! {

/// The character at a position; `'\0'` past the end. A `'\0'` in the
/// input itself ends the input just as its end does.
pub open spec fn char_at(s: Seq<char>, i: int) -> char {
    if 0 <= i < s.len() {
        s[i]
    } else {
        '\0'
    }
}

/// The position after reading one character: the end does not move.
pub open spec fn step(s: Seq<char>, i: int) -> int {
    if i < s.len() {
        i + 1
    } else {
        i
    }
}

/// The characters that separate tokens.
pub open spec fn is_blank(c: char) -> bool {
    c == ' ' || c == '\t' || c == '\n' || c == '\r'
}

/// The characters that end an unquoted word.
pub open spec fn word_terminator(c: char) -> bool {
    is_blank(c) || c == '|' || c == '&' || c == ';' || c == '<' || c == '>'
}

/// The characters that may form a variable name.
pub open spec fn var_char(c: char) -> bool {
    unicode_alphanumeric(c) || c == '_'
}

/// The ASCII decimal digits.
pub open spec fn ascii_digit(c: char) -> bool {
    '0' <= c && c <= '9'
}

/// The operators that this shell does not implement yet.
pub open spec fn unsupported_operator(c: char) -> bool {
    c == '|' || c == '&' || c == '<' || c == ';'
}

/// The first position at or after `i` that holds no blank.
pub open spec fn skip_blanks(s: Seq<char>, i: int) -> int
    decreases s.len() - i,
{
    if 0 <= i < s.len() && is_blank(s[i]) {
        skip_blanks(s, i + 1)
    } else {
        i
    }
}

/// The end of the variable name that starts at `i`.
pub open spec fn var_name_end(s: Seq<char>, i: int) -> int
    decreases s.len() - i,
{
    if 0 <= i < s.len() && s[i] != '\0' && var_char(s[i]) {
        var_name_end(s, i + 1)
    } else {
        i
    }
}

/// The end of the run of digits that starts at `i`.
pub open spec fn digit_run_end(s: Seq<char>, i: int) -> int
    decreases s.len() - i,
{
    if 0 <= i < s.len() && ascii_digit(s[i]) {
        digit_run_end(s, i + 1)
    } else {
        i
    }
}

/// The position of the quote (or of the end) that closes a single-quoted
/// segment whose text starts at `i`.
pub open spec fn single_quote_end(s: Seq<char>, i: int) -> int
    decreases s.len() - i,
{
    if 0 <= i < s.len() && s[i] != '\'' && s[i] != '\0' {
        single_quote_end(s, i + 1)
    } else {
        i
    }
}

/// What `$NAME` stands for: the variable's value, the empty text for an
/// unset variable, and a literal `$` when no name follows.
pub open spec fn expansion(name: Seq<char>, vars: Seq<(Seq<char>, Seq<char>)>) -> Seq<char> {
    if name.len() == 0 {
        seq!['$']
    } else {
        match lookup_var(vars, name) {
            Some(v) => v,
            None => Seq::empty(),
        }
    }
}

/// The characters that a backslash keeps literal inside double quotes.
pub open spec fn dq_escapable(c: char) -> bool {
    c == '"' || c == '\\' || c == '$' || c == '`'
}

/// A double-quoted segment whose text starts at `i`: its expanded text, the
/// position after it, and whether the input ended before the closing quote.
pub open spec fn double_quoted(s: Seq<char>, i: int, vars: Seq<(Seq<char>, Seq<char>)>) -> (Seq<char>, int, bool)
    decreases s.len() - i,
{
    let c = char_at(s, i);
    if c == '"' {
        (Seq::empty(), i + 1, false)
    } else if c == '\0' {
        (Seq::empty(), i, true)
    } else if c == '$' {
        let e = var_name_end(s, i + 1);
        proof {
            lemma_var_name_end_bounds(s, i + 1);
        }
        let r = double_quoted(s, e, vars);
        (expansion(s.subrange(i + 1, e), vars) + r.0, r.1, r.2)
    } else if c == '\\' {
        let n = char_at(s, i + 1);
        if dq_escapable(n) {
            let r = double_quoted(s, i + 2, vars);
            (seq![n] + r.0, r.1, r.2)
        } else {
            let r = double_quoted(s, i + 1, vars);
            (seq!['\\'] + r.0, r.1, r.2)
        }
    } else {
        let r = double_quoted(s, i + 1, vars);
        (seq![c] + r.0, r.1, r.2)
    }
}

/// A word that starts at `i`: its text after quote removal, escapes and
/// expansion, the position after it, and whether a quote was left open.
pub open spec fn scan_word(s: Seq<char>, i: int, vars: Seq<(Seq<char>, Seq<char>)>) -> (Seq<char>, int, bool)
    decreases s.len() - i,
{
    let c = char_at(s, i);
    if c == '\0' || word_terminator(c) {
        (Seq::empty(), i, false)
    } else if c == '\'' {
        let j = single_quote_end(s, i + 1);
        proof {
            lemma_single_quote_end_bounds(s, i + 1);
        }
        let next = if char_at(s, j) == '\'' { j + 1 } else { j };
        let r = scan_word(s, next, vars);
        (s.subrange(i + 1, j) + r.0, r.1, char_at(s, j) == '\0' || r.2)
    } else if c == '"' {
        let q = double_quoted(s, i + 1, vars);
        proof {
            lemma_double_quoted_bounds(s, i + 1, vars);
        }
        let r = scan_word(s, q.1, vars);
        (q.0 + r.0, r.1, q.2 || r.2)
    } else if c == '$' {
        let e = var_name_end(s, i + 1);
        proof {
            lemma_var_name_end_bounds(s, i + 1);
        }
        let r = scan_word(s, e, vars);
        (expansion(s.subrange(i + 1, e), vars) + r.0, r.1, r.2)
    } else if c == '\\' {
        let n = char_at(s, i + 1);
        if n != '\0' {
            let r = scan_word(s, i + 2, vars);
            (seq![n] + r.0, r.1, r.2)
        } else {
            scan_word(s, i + 1, vars)
        }
    } else {
        let r = scan_word(s, i + 1, vars);
        (seq![c] + r.0, r.1, r.2)
    }
}

/// The token that starts at or after position `p`: the token, the position
/// after it, and whether it left a quote open. `None` where the input
/// reaches an operator that this shell does not implement.
pub open spec fn next_token_spec(s: Seq<char>, p: int, vars: Seq<(Seq<char>, Seq<char>)>) -> Option<((TokenType, Seq<char>), int, bool)> {
    let q = skip_blanks(s, p);
    let c = char_at(s, q);
    if c == '\0' {
        Some(((TokenType::Eof, Seq::empty()), step(s, q), false))
    } else if unsupported_operator(c) {
        None
    } else if c == '>' {
        if char_at(s, q + 1) == '>' {
            Some(((TokenType::GtGt, seq!['>', '>']), q + 2, false))
        } else {
            Some(((TokenType::Gt, seq!['>']), q + 1, false))
        }
    } else if ascii_digit(c) {
        let r = digit_run_end(s, q);
        if char_at(s, r) == '>' {
            Some(((TokenType::IoNumber, s.subrange(q, r)), r, false))
        } else {
            let w = scan_word(s, r, vars);
            Some(((TokenType::Word, s.subrange(q, r) + w.0), w.1, w.2))
        }
    } else {
        let w = scan_word(s, q, vars);
        Some(((TokenType::Word, w.0), w.1, w.2))
    }
}

/// All tokens from position `p` on, up to and including the end-of-input
/// token, and whether any of them left a quote open. `None` where the input
/// reaches an unsupported operator.
pub open spec fn lex_from(s: Seq<char>, p: int, vars: Seq<(Seq<char>, Seq<char>)>) -> Option<(Seq<(TokenType, Seq<char>)>, bool)>
    decreases s.len() - p,
{
    match next_token_spec(s, p, vars) {
        None => None,
        Some((t, k, u)) => {
            if t.0 == TokenType::Eof {
                Some((seq![t], u))
            } else {
                proof {
                    lemma_next_token_progress(s, p, vars);
                }
                match lex_from(s, k, vars) {
                    None => None,
                    Some((ts, u2)) => Some((seq![t] + ts, u || u2)),
                }
            }
        }
    }
}

/// The tokens of a whole command line, and whether a quote was left open.
pub open spec fn lex_spec(s: Seq<char>, vars: Seq<(Seq<char>, Seq<char>)>) -> Option<(Seq<(TokenType, Seq<char>)>, bool)> {
    lex_from(s, 0, vars)
}

pub proof fn lemma_skip_blanks_bounds(s: Seq<char>, i: int)
    ensures
        i <= skip_blanks(s, i),
        i <= s.len() ==> skip_blanks(s, i) <= s.len(),
        0 <= i ==> (skip_blanks(s, i) < s.len() ==> !is_blank(s[skip_blanks(s, i)])),
    decreases s.len() - i,
{
    if 0 <= i < s.len() && is_blank(s[i]) {
        lemma_skip_blanks_bounds(s, i + 1);
    }
}

pub proof fn lemma_skip_blanks_idempotent(s: Seq<char>, p: int, vars: Seq<(Seq<char>, Seq<char>)>)
    requires
        0 <= p,
    ensures
        skip_blanks(s, skip_blanks(s, p)) == skip_blanks(s, p),
        next_token_spec(s, skip_blanks(s, p), vars) == next_token_spec(s, p, vars),
{
    lemma_skip_blanks_bounds(s, p);
}

pub proof fn lemma_var_name_end_bounds(s: Seq<char>, i: int)
    ensures
        i <= var_name_end(s, i),
        i <= s.len() ==> var_name_end(s, i) <= s.len(),
    decreases s.len() - i,
{
    if 0 <= i < s.len() && s[i] != '\0' && var_char(s[i]) {
        lemma_var_name_end_bounds(s, i + 1);
    }
}

pub proof fn lemma_digit_run_end_bounds(s: Seq<char>, i: int)
    ensures
        i <= digit_run_end(s, i),
        i <= s.len() ==> digit_run_end(s, i) <= s.len(),
    decreases s.len() - i,
{
    if 0 <= i < s.len() && ascii_digit(s[i]) {
        lemma_digit_run_end_bounds(s, i + 1);
    }
}

pub proof fn lemma_single_quote_end_bounds(s: Seq<char>, i: int)
    ensures
        i <= single_quote_end(s, i),
        i <= s.len() ==> single_quote_end(s, i) <= s.len(),
    decreases s.len() - i,
{
    if 0 <= i < s.len() && s[i] != '\'' && s[i] != '\0' {
        lemma_single_quote_end_bounds(s, i + 1);
    }
}

pub proof fn lemma_double_quoted_bounds(s: Seq<char>, i: int, vars: Seq<(Seq<char>, Seq<char>)>)
    ensures
        i <= double_quoted(s, i, vars).1,
        0 <= i <= s.len() ==> double_quoted(s, i, vars).1 <= s.len(),
    decreases s.len() - i,
{
    let c = char_at(s, i);
    if c == '"' {
    } else if c == '\0' {
    } else if c == '$' {
        lemma_var_name_end_bounds(s, i + 1);
        lemma_double_quoted_bounds(s, var_name_end(s, i + 1), vars);
    } else if c == '\\' {
        let n = char_at(s, i + 1);
        if dq_escapable(n) {
            lemma_double_quoted_bounds(s, i + 2, vars);
        } else {
            lemma_double_quoted_bounds(s, i + 1, vars);
        }
    } else {
        lemma_double_quoted_bounds(s, i + 1, vars);
    }
}

pub proof fn lemma_scan_word_bounds(s: Seq<char>, i: int, vars: Seq<(Seq<char>, Seq<char>)>)
    ensures
        i <= scan_word(s, i, vars).1,
        0 <= i <= s.len() ==> scan_word(s, i, vars).1 <= s.len(),
        char_at(s, i) != '\0' && !word_terminator(char_at(s, i)) ==> i < scan_word(s, i, vars).1,
    decreases s.len() - i,
{
    let c = char_at(s, i);
    if c == '\0' || word_terminator(c) {
    } else if c == '\'' {
        let j = single_quote_end(s, i + 1);
        lemma_single_quote_end_bounds(s, i + 1);
        let next = if char_at(s, j) == '\'' { j + 1 } else { j };
        lemma_scan_word_bounds(s, next, vars);
    } else if c == '"' {
        lemma_double_quoted_bounds(s, i + 1, vars);
        lemma_scan_word_bounds(s, double_quoted(s, i + 1, vars).1, vars);
    } else if c == '$' {
        lemma_var_name_end_bounds(s, i + 1);
        lemma_scan_word_bounds(s, var_name_end(s, i + 1), vars);
    } else if c == '\\' {
        let n = char_at(s, i + 1);
        if n != '\0' {
            lemma_scan_word_bounds(s, i + 2, vars);
        } else {
            lemma_scan_word_bounds(s, i + 1, vars);
        }
    } else {
        lemma_scan_word_bounds(s, i + 1, vars);
    }
}

pub proof fn lemma_next_token_progress(s: Seq<char>, p: int, vars: Seq<(Seq<char>, Seq<char>)>)
    ensures
        next_token_spec(s, p, vars) matches Some((t, k, u)) ==> (t.0 != TokenType::Eof ==> 0 <= p < k <= s.len()),
{
    let q = skip_blanks(s, p);
    lemma_skip_blanks_bounds(s, p);
    let c = char_at(s, q);
    if c != '\0' && !unsupported_operator(c) {
        if c == '>' {
        } else if ascii_digit(c) {
            lemma_digit_run_end_bounds(s, q);
            lemma_digit_run_end_bounds(s, q + 1);
            let r = digit_run_end(s, q);
            if char_at(s, r) != '>' {
                lemma_scan_word_bounds(s, r, vars);
            }
        } else {
            lemma_scan_word_bounds(s, q, vars);
        }
    }
}


/// Every token list that the lexer produces holds no illegal token and ends
/// with exactly one end-of-input token.
pub proof fn lemma_lex_from_shape(s: Seq<char>, p: int, vars: Seq<(Seq<char>, Seq<char>)>)
    ensures
        lex_from(s, p, vars) matches Some((ts, _)) ==> {
            &&& ts.len() >= 1
            &&& ts.last().0 == TokenType::Eof
            &&& forall|i: int| 0 <= i < ts.len() - 1 ==> #[trigger] ts[i].0 != TokenType::Eof
            &&& forall|i: int| 0 <= i < ts.len() ==> #[trigger] ts[i].0 != TokenType::Illegal
        },
    decreases s.len() - p,
{
    lemma_next_token_progress(s, p, vars);
    match next_token_spec(s, p, vars) {
        None => {},
        Some((t, k, u)) => {
            if t.0 != TokenType::Eof {
                lemma_lex_from_shape(s, k, vars);
                match lex_from(s, k, vars) {
                    None => {},
                    Some((ts, u2)) => {
                        let all = seq![t] + ts;
                        assert forall|i: int| 0 <= i < all.len() - 1 implies #[trigger] all[i].0
                            != TokenType::Eof by {
                            if i > 0 {
                                assert(all[i] == ts[i - 1]);
                            }
                        }
                        assert forall|i: int| 0 <= i < all.len() implies #[trigger] all[i].0
                            != TokenType::Illegal by {
                            if i > 0 {
                                assert(all[i] == ts[i - 1]);
                            }
                        }
                        assert(all.last() == ts.last());
                    },
                }
            }
        },
    }
}

/// The lexer's output on a whole line holds no illegal token and ends with
/// exactly one end-of-input token.
pub proof fn law_lex_tokens_end_with_eof(s: Seq<char>, vars: Seq<(Seq<char>, Seq<char>)>)
    ensures
        lex_spec(s, vars) matches Some((ts, _)) ==> {
            &&& ts.len() >= 1
            &&& ts.last().0 == TokenType::Eof
            &&& forall|i: int| 0 <= i < ts.len() - 1 ==> #[trigger] ts[i].0 != TokenType::Eof
            &&& forall|i: int| 0 <= i < ts.len() ==> #[trigger] ts[i].0 != TokenType::Illegal
        },
{
    lemma_lex_from_shape(s, 0, vars);
}

/// Once the input holds no `'\0'` character, the end-of-input token is
/// final: reading on from where it was read gives it again, with no quote
/// left open.
pub proof fn law_eof_is_final(s: Seq<char>, p: int, vars: Seq<(Seq<char>, Seq<char>)>)
    requires
        0 <= p,
        forall|i: int| 0 <= i < s.len() ==> s[i] != '\0',
        next_token_spec(s, p, vars) matches Some((t, _, _)) && t.0 == TokenType::Eof,
    ensures
        next_token_spec(s, p, vars) matches Some((t, k, u)) && t == (TokenType::Eof, Seq::<char>::empty())
            && !u && next_token_spec(s, k, vars) == next_token_spec(s, p, vars),
{
    lemma_skip_blanks_bounds(s, p);
    let q = skip_blanks(s, p);
    assert(q >= s.len());
    assert(skip_blanks(s, q) == q);
}

proof fn lemma_double_quoted_open(s: Seq<char>, i: int, vars: Seq<(Seq<char>, Seq<char>)>)
    ensures
        double_quoted(s, i, vars).2 ==> char_at(s, double_quoted(s, i, vars).1) == '\0',
    decreases s.len() - i,
{
    let c = char_at(s, i);
    if c == '"' {
    } else if c == '\0' {
    } else if c == '$' {
        lemma_var_name_end_bounds(s, i + 1);
        lemma_double_quoted_open(s, var_name_end(s, i + 1), vars);
    } else if c == '\\' {
        if dq_escapable(char_at(s, i + 1)) {
            lemma_double_quoted_open(s, i + 2, vars);
        } else {
            lemma_double_quoted_open(s, i + 1, vars);
        }
    } else {
        lemma_double_quoted_open(s, i + 1, vars);
    }
}

pub proof fn lemma_scan_word_open(s: Seq<char>, i: int, vars: Seq<(Seq<char>, Seq<char>)>)
    ensures
        scan_word(s, i, vars).2 ==> char_at(s, scan_word(s, i, vars).1) == '\0',
    decreases s.len() - i,
{
    let c = char_at(s, i);
    if c == '\0' || word_terminator(c) {
    } else if c == '\'' {
        let j = single_quote_end(s, i + 1);
        lemma_single_quote_end_bounds(s, i + 1);
        let next = if char_at(s, j) == '\'' { j + 1 } else { j };
        lemma_scan_word_open(s, next, vars);
    } else if c == '"' {
        lemma_double_quoted_bounds(s, i + 1, vars);
        lemma_double_quoted_open(s, i + 1, vars);
        lemma_scan_word_open(s, double_quoted(s, i + 1, vars).1, vars);
    } else if c == '$' {
        lemma_var_name_end_bounds(s, i + 1);
        lemma_scan_word_open(s, var_name_end(s, i + 1), vars);
    } else if c == '\\' {
        if char_at(s, i + 1) != '\0' {
            lemma_scan_word_open(s, i + 2, vars);
        } else {
            lemma_scan_word_open(s, i + 1, vars);
        }
    } else {
        lemma_scan_word_open(s, i + 1, vars);
    }
}

/// A quote is left open only by a word that runs to the end of the input:
/// the token that opens it is a word, and the next token is the end of the
/// input. (The lexer's flag, once set, stays set: `Lexer::next_token` ors it
/// with each token's.)
pub proof fn law_open_quote_runs_to_end(s: Seq<char>, p: int, vars: Seq<(Seq<char>, Seq<char>)>)
    requires
        0 <= p,
        next_token_spec(s, p, vars) matches Some((_, _, u)) && u,
    ensures
        next_token_spec(s, p, vars) matches Some((t, k, _)) && t.0 == TokenType::Word && (
        next_token_spec(s, k, vars) matches Some((t2, _, u2)) && t2.0 == TokenType::Eof && !u2),
{
    lemma_skip_blanks_bounds(s, p);
    let q = skip_blanks(s, p);
    let c = char_at(s, q);
    let k = next_token_spec(s, p, vars).unwrap().1;
    if ascii_digit(c) {
        let r = digit_run_end(s, q);
        lemma_digit_run_end_bounds(s, q);
        lemma_scan_word_bounds(s, r, vars);
        lemma_scan_word_open(s, r, vars);
    } else {
        lemma_scan_word_bounds(s, q, vars);
        lemma_scan_word_open(s, q, vars);
    }
    assert(char_at(s, k) == '\0');
    assert(k >= 0);
    assert(skip_blanks(s, k) == k);
}

proof fn lemma_name_runs_to_end(s: Seq<char>, i: int)
    requires
        0 <= i <= s.len(),
        forall|j: int| i <= j < s.len() ==> s[j] != '\0' && (unicode_alphanumeric(#[trigger] s[j]) || s[j] == '_'),
    ensures
        var_name_end(s, i) == s.len(),
    decreases s.len() - i,
{
    if i < s.len() {
        assert(s[i] != '\0' && (unicode_alphanumeric(s[i]) || s[i] == '_'));
        lemma_name_runs_to_end(s, i + 1);
    }
}

/// `$NAME` expands to the whole variable: for a name of letters, digits and
/// underscores that is set, the line `$NAME` lexes to one word, the
/// variable's value.
pub proof fn law_dollar_name_expands(name: Seq<char>, value: Seq<char>, vars: Seq<(Seq<char>, Seq<char>)>)
    requires
        name.len() > 0,
        forall|j: int| 0 <= j < name.len() ==> #[trigger] name[j] != '\0' && (unicode_alphanumeric(name[j])
            || name[j] == '_'),
        lookup_var(vars, name) == Some(value),
    ensures
        lex_spec(seq!['$'] + name, vars) == Some(
            (seq![(TokenType::Word, value), (TokenType::Eof, Seq::<char>::empty())], false),
        ),
{
    let s = seq!['$'] + name;
    let n = s.len() as int;
    assert forall|j: int| 1 <= j < n implies s[j] != '\0' && (unicode_alphanumeric(#[trigger] s[j]) || s[j] == '_') by {
        assert(s[j] == name[j - 1]);
    }
    lemma_name_runs_to_end(s, 1);
    assert(s.subrange(1, n) =~= name);
    assert(skip_blanks(s, 0) == 0);
    assert(scan_word(s, n, vars) == (Seq::<char>::empty(), n, false));
    assert(scan_word(s, 0, vars) == (value + Seq::<char>::empty(), n, false));
    assert(value + Seq::<char>::empty() =~= value);
    assert(next_token_spec(s, 0, vars) == Some(((TokenType::Word, value), n, false)));
    assert(skip_blanks(s, n) == n);
    assert(next_token_spec(s, n, vars) == Some(((TokenType::Eof, Seq::<char>::empty()), n, false)));
    assert(lex_from(s, n, vars) == Some((seq![(TokenType::Eof, Seq::<char>::empty())], false)));
    assert(seq![(TokenType::Word, value)] + seq![(TokenType::Eof, Seq::<char>::empty())] =~= seq![
        (TokenType::Word, value),
        (TokenType::Eof, Seq::<char>::empty()),
    ]);
}

proof fn lemma_quote_runs_to_close(s: Seq<char>, i: int)
    requires
        1 <= i <= s.len() - 1,
        s[s.len() - 1] == '\'',
        forall|j: int| 1 <= j < s.len() - 1 ==> #[trigger] s[j] != '\'' && s[j] != '\0',
    ensures
        single_quote_end(s, i) == s.len() - 1,
    decreases s.len() - i,
{
    if i < s.len() - 1 {
        assert(s[i] != '\'' && s[i] != '\0');
        lemma_quote_runs_to_close(s, i + 1);
    }
}

/// Single quotes keep their text as it is: a line that is one quoted
/// segment lexes to one word, the text between the quotes, and leaves no
/// quote open.
pub proof fn law_single_quotes_are_literal(text: Seq<char>, vars: Seq<(Seq<char>, Seq<char>)>)
    requires
        forall|j: int| 0 <= j < text.len() ==> #[trigger] text[j] != '\'' && text[j] != '\0',
    ensures
        lex_spec(seq!['\''] + text + seq!['\''], vars) == Some(
            (seq![(TokenType::Word, text), (TokenType::Eof, Seq::<char>::empty())], false),
        ),
{
    let s = seq!['\''] + text + seq!['\''];
    let n = s.len() as int;
    assert forall|j: int| 1 <= j < n - 1 implies #[trigger] s[j] != '\'' && s[j] != '\0' by {
        assert(s[j] == text[j - 1]);
    }
    lemma_quote_runs_to_close(s, 1);
    assert(s.subrange(1, n - 1) =~= text);
    assert(skip_blanks(s, 0) == 0);
    assert(scan_word(s, n, vars) == (Seq::<char>::empty(), n, false));
    assert(scan_word(s, 0, vars) == (text + Seq::<char>::empty(), n, false));
    assert(text + Seq::<char>::empty() =~= text);
    assert(next_token_spec(s, 0, vars) == Some(((TokenType::Word, text), n, false)));
    assert(skip_blanks(s, n) == n);
    assert(lex_from(s, n, vars) == Some((seq![(TokenType::Eof, Seq::<char>::empty())], false)));
    assert(seq![(TokenType::Word, text)] + seq![(TokenType::Eof, Seq::<char>::empty())] =~= seq![
        (TokenType::Word, text),
        (TokenType::Eof, Seq::<char>::empty()),
    ]);
}

} // verus!
