//! The lexer: turns a command line into words and redirection operators.
use vstd::prelude::*;
use crate::grammar::{
    ascii_digit, char_at, double_quoted, expansion, lemma_double_quoted_bounds,
    lemma_single_quote_end_bounds, lemma_var_name_end_bounds, scan_word, single_quote_end, skip_blanks,
    step, var_char, var_name_end, word_terminator, next_token_spec, unsupported_operator,
    lemma_skip_blanks_bounds, lemma_skip_blanks_idempotent, digit_run_end, lex_from, lex_spec,
    lemma_next_token_progress,
};
use crate::text::{extend_chars, is_alphanumeric, push_str_chars, string_from_chars, chars_of};
use crate::token::{Token, TokenType};
use crate::variables::Variables;

verus! {

/// The view of a list of tokens.
pub open spec fn tokens_view(v: Seq<Token>) -> Seq<(TokenType, Seq<char>)> {
    v.map_values(|t: Token| t@)
}

/// Reads a command line character by character.
pub struct Lexer<'a> {
    is_unterminated: bool,
    input: Vec<char>,
    position: usize,
    ch: char,
    vars: &'a Variables,
}

/// Whether `c` ends an unquoted word.
pub fn is_word_terminator(c: char) -> (r: bool)
    ensures
        r == word_terminator(c),
{
    c == ' ' || c == '\t' || c == '\n' || c == '\r' || c == '|' || c == '&' || c == ';' || c == '<'
        || c == '>'
}

/// Whether `c` may appear in a variable name.
pub fn is_var_char(c: char) -> (r: bool)
    ensures
        r == var_char(c),
{
    is_alphanumeric(c) || c == '_'
}

/// Whether `c` is an ASCII decimal digit.
pub fn is_ascii_digit(c: char) -> (r: bool)
    ensures
        r == ascii_digit(c),
{
    '0' <= c && c <= '9'
}

impl<'a> Lexer<'a> {
    /// The characters of the input.
    pub closed spec fn text(&self) -> Seq<char> {
        self.input@
    }

    /// The position of the current character.
    pub closed spec fn pos(&self) -> int {
        self.position as int
    }

    /// Whether a quote was left open so far.
    pub closed spec fn unterminated(&self) -> bool {
        self.is_unterminated
    }

    /// The variables that `$NAME` expands to.
    pub closed spec fn vars(&self) -> Seq<(Seq<char>, Seq<char>)> {
        self.vars@
    }

    /// The lexer's internal consistency: the position lies in the input and
    /// the current character is the one at that position.
    pub closed spec fn wf(&self) -> bool {
        &&& self.position <= self.input.len()
        &&& self.ch == char_at(self.input@, self.position as int)
    }

    /// A lexer positioned at the start of `input`.
    pub fn new(input: &str, vars: &'a Variables) -> (l: Lexer<'a>)
        ensures
            l.wf(),
            l.text() == input@,
            l.pos() == 0,
            !l.unterminated(),
            l.vars() == vars@,
    {
        let chars = chars_of(input);
        let ch = if 0 < chars.len() {
            chars[0]
        } else {
            '\0'
        };
        Lexer { is_unterminated: false, input: chars, position: 0, ch, vars }
    }

    /// Whether a quote was left open by the tokens read so far.
    pub fn is_unterminated(&mut self) -> (r: bool)
        ensures
            r == old(self).unterminated(),
            *final(self) == *old(self),
    {
        self.is_unterminated
    }

    fn read_char(&mut self)
        requires
            old(self).wf(),
        ensures
            final(self).wf(),
            final(self).text() == old(self).text(),
            final(self).vars() == old(self).vars(),
            final(self).unterminated() == old(self).unterminated(),
            final(self).pos() == step(old(self).text(), old(self).pos()),
    {
        if self.position < self.input.len() {
            self.position = self.position + 1;
        }
        self.ch = if self.position < self.input.len() {
            self.input[self.position]
        } else {
            '\0'
        };
    }

    fn peek_char(&self) -> (c: char)
        requires
            self.wf(),
        ensures
            c == char_at(self.text(), self.pos() + 1),
    {
        if self.position < self.input.len() && self.position + 1 < self.input.len() {
            self.input[self.position + 1]
        } else {
            '\0'
        }
    }

    fn skip_whitespace(&mut self)
        requires
            old(self).wf(),
        ensures
            final(self).wf(),
            final(self).text() == old(self).text(),
            final(self).vars() == old(self).vars(),
            final(self).unterminated() == old(self).unterminated(),
            final(self).pos() == skip_blanks(old(self).text(), old(self).pos()),
    {
        let ghost s = self.text();
        let ghost start = self.pos();
        while self.ch == ' ' || self.ch == '\t' || self.ch == '\n' || self.ch == '\r'
            invariant
                self.wf(),
                self.text() == s,
                self.vars() == old(self).vars(),
                self.unterminated() == old(self).unterminated(),
                skip_blanks(s, self.pos()) == skip_blanks(s, start),
            decreases s.len() - self.pos(),
        {
            self.read_char();
        }
    }

    fn read_var_name(&mut self) -> (name: Vec<char>)
        requires
            old(self).wf(),
        ensures
            final(self).wf(),
            final(self).text() == old(self).text(),
            final(self).vars() == old(self).vars(),
            final(self).unterminated() == old(self).unterminated(),
            final(self).pos() == var_name_end(old(self).text(), old(self).pos()),
            name@ == old(self).text().subrange(old(self).pos(), final(self).pos()),
    {
        let ghost s = self.text();
        let ghost start = self.pos();
        let mut name: Vec<char> = Vec::new();
        // The end marker never belongs to a name.
        while self.ch != '\0' && is_var_char(self.ch)
            invariant
                self.wf(),
                self.text() == s,
                self.vars() == old(self).vars(),
                self.unterminated() == old(self).unterminated(),
                0 <= start <= self.pos(),
                var_name_end(s, self.pos()) == var_name_end(s, start),
                name@ == s.subrange(start, self.pos()),
            decreases s.len() - self.pos(),
        {
            let ghost p = self.pos();
            assert(0 <= start <= p < s.len());
            assert(self.ch == s[p]);
            name.push(self.ch);
            self.read_char();
            assert(s.subrange(start, p + 1) =~= s.subrange(start, p).push(s[p]));
        }
        name
    }

    fn push_expansion(&self, buf: &mut Vec<char>, name: &Vec<char>)
        ensures
            final(buf)@ == old(buf)@ + expansion(name@, self.vars()),
    {
        if name.len() == 0 {
            buf.push('$');
            assert(final(buf)@ =~= old(buf)@ + seq!['$']);
        } else {
            match self.vars.get(name) {
                Some(v) => push_str_chars(buf, v.as_str()),
                None => {
                    assert(buf@ =~= old(buf)@ + Seq::<char>::empty());
                },
            }
        }
    }

    fn read_single_quoted(&mut self, buf: &mut Vec<char>)
        requires
            old(self).wf(),
            char_at(old(self).text(), old(self).pos()) == '\'',
        ensures
            final(self).wf(),
            final(self).text() == old(self).text(),
            final(self).vars() == old(self).vars(),
            final(buf)@ == old(buf)@ + old(self).text().subrange(
                old(self).pos() + 1,
                single_quote_end(old(self).text(), old(self).pos() + 1),
            ),
            final(self).pos() == (if char_at(
                old(self).text(),
                single_quote_end(old(self).text(), old(self).pos() + 1),
            ) == '\'' {
                single_quote_end(old(self).text(), old(self).pos() + 1) + 1
            } else {
                single_quote_end(old(self).text(), old(self).pos() + 1)
            }),
            final(self).unterminated() == (old(self).unterminated() || char_at(
                old(self).text(),
                single_quote_end(old(self).text(), old(self).pos() + 1),
            ) == '\0'),
    {
        let ghost s = self.text();
        let ghost start = self.pos() + 1;
        let ghost b0 = buf@;
        self.read_char();
        while self.ch != '\'' && self.ch != '\0'
            invariant
                self.wf(),
                self.text() == s,
                self.vars() == old(self).vars(),
                self.unterminated() == old(self).unterminated(),
                0 <= start <= self.pos(),
                single_quote_end(s, self.pos()) == single_quote_end(s, start),
                buf@ == b0 + s.subrange(start, self.pos()),
            decreases s.len() - self.pos(),
        {
            let ghost p = self.pos();
            assert(0 <= start <= p < s.len());
            assert(self.ch == s[p]);
            buf.push(self.ch);
            self.read_char();
            assert(s.subrange(start, p + 1) =~= s.subrange(start, p).push(s[p]));
            assert(buf@ =~= b0 + s.subrange(start, self.pos()));
        }
        if self.ch == '\0' {
            self.is_unterminated = true;
        }
        if self.ch == '\'' {
            self.read_char();
        }
    }

    fn read_double_quoted(&mut self, buf: &mut Vec<char>)
        requires
            old(self).wf(),
            char_at(old(self).text(), old(self).pos()) == '"',
        ensures
            final(self).wf(),
            final(self).text() == old(self).text(),
            final(self).vars() == old(self).vars(),
            final(buf)@ == old(buf)@ + double_quoted(old(self).text(), old(self).pos() + 1, old(self).vars()).0,
            final(self).pos() == double_quoted(old(self).text(), old(self).pos() + 1, old(self).vars()).1,
            final(self).unterminated() == (old(self).unterminated() || double_quoted(
                old(self).text(),
                old(self).pos() + 1,
                old(self).vars(),
            ).2),
    {
        let ghost s = self.text();
        let ghost v = self.vars();
        let ghost start = self.pos() + 1;
        let ghost b0 = buf@;
        let ghost mut acc: Seq<char> = Seq::empty();
        self.read_char();
        while self.ch != '"' && self.ch != '\0'
            invariant
                self.wf(),
                self.text() == s,
                self.vars() == v,
                self.unterminated() == old(self).unterminated(),
                buf@ == b0 + acc,
                double_quoted(s, start, v).0 == acc + double_quoted(s, self.pos(), v).0,
                double_quoted(s, start, v).1 == double_quoted(s, self.pos(), v).1,
                double_quoted(s, start, v).2 == double_quoted(s, self.pos(), v).2,
            decreases s.len() - self.pos(),
        {
            let ghost p = self.pos();
            let c = self.ch;
            if c == '$' {
                self.read_char();
                let name = self.read_var_name();
                proof {
                    lemma_var_name_end_bounds(s, p + 1);
                }
                self.push_expansion(buf, &name);
                proof {
                    let e = expansion(name@, v);
                    assert(acc + (e + double_quoted(s, self.pos(), v).0) =~= (acc + e)
                        + double_quoted(s, self.pos(), v).0);
                    acc = acc + e;
                }
            } else if c == '\\' {
                let next = self.peek_char();
                if next == '"' || next == '\\' || next == '$' || next == '`' {
                    self.read_char();
                    buf.push(self.ch);
                    self.read_char();
                    proof {
                        assert(acc + (seq![next] + double_quoted(s, self.pos(), v).0) =~= (acc
                            + seq![next]) + double_quoted(s, self.pos(), v).0);
                        acc = acc + seq![next];
                    }
                } else {
                    buf.push('\\');
                    self.read_char();
                    proof {
                        assert(acc + (seq!['\\'] + double_quoted(s, self.pos(), v).0) =~= (acc
                            + seq!['\\']) + double_quoted(s, self.pos(), v).0);
                        acc = acc + seq!['\\'];
                    }
                }
            } else {
                buf.push(c);
                self.read_char();
                proof {
                    assert(acc + (seq![c] + double_quoted(s, self.pos(), v).0) =~= (acc + seq![c])
                        + double_quoted(s, self.pos(), v).0);
                    acc = acc + seq![c];
                }
            }
            assert(buf@ =~= b0 + acc);
        }
        assert(acc + Seq::<char>::empty() =~= acc);
        if self.ch == '\0' {
            self.is_unterminated = true;
        }
        if self.ch == '"' {
            self.read_char();
        }
    }

    /// The next token. Positions past the end yield the end-of-input token
    /// again.
    pub fn next_token(&mut self) -> (t: Token)
        requires
            old(self).wf(),
            next_token_spec(old(self).text(), old(self).pos(), old(self).vars()) is Some,
        ensures
            final(self).wf(),
            final(self).text() == old(self).text(),
            final(self).vars() == old(self).vars(),
            next_token_spec(old(self).text(), old(self).pos(), old(self).vars()) matches Some((tt, k, u))
                && t@ == tt && final(self).pos() == k && final(self).unterminated() == (
            old(self).unterminated() || u),
    {
        let ghost s = self.text();
        let ghost v = self.vars();
        self.skip_whitespace();
        let ghost q = self.pos();
        proof {
            lemma_skip_blanks_bounds(s, old(self).pos());
        }
        let c = self.ch;
        if c == '\0' {
            let t = Token::new(TokenType::Eof, String::new());
            self.read_char();
            assert(t.literal@ =~= Seq::<char>::empty());
            return t;
        }
        // The operators `|`, `&`, `<` and `;` are not implemented: the
        // contract keeps them out of the input.
        assert(!unsupported_operator(c));
        if c == '>' {
            if self.peek_char() == '>' {
                self.read_char();
                self.read_char();
                proof {
                    reveal_strlit(">>");
                }
                let t = Token::new(TokenType::GtGt, ">>".to_owned());
                assert(t.literal@ =~= seq!['>', '>']);
                return t;
            } else {
                self.read_char();
                proof {
                    reveal_strlit(">");
                }
                let t = Token::new(TokenType::Gt, ">".to_owned());
                assert(t.literal@ =~= seq!['>']);
                return t;
            }
        }
        if is_ascii_digit(c) {
            let mut digits: Vec<char> = Vec::new();
            while is_ascii_digit(self.ch)
                invariant
                    self.wf(),
                    self.text() == s,
                    self.vars() == v,
                    self.unterminated() == old(self).unterminated(),
                    0 <= q <= self.pos(),
                    digit_run_end(s, self.pos()) == digit_run_end(s, q),
                    digits@ == s.subrange(q, self.pos()),
                decreases s.len() - self.pos(),
            {
                let ghost p = self.pos();
                assert(0 <= q <= p < s.len());
                digits.push(self.ch);
                self.read_char();
                assert(s.subrange(q, p + 1) =~= s.subrange(q, p).push(s[p]));
            }
            if self.ch == '>' {
                return Token::new(TokenType::IoNumber, string_from_chars(&digits));
            }
            let rest = self.read_word();
            extend_chars(&mut digits, &rest);
            return Token::new(TokenType::Word, string_from_chars(&digits));
        }
        let literal = self.read_word();
        Token::new(TokenType::Word, string_from_chars(&literal))
    }

    /// Skips blanks and tells whether the next token would start with an
    /// operator that this shell does not implement.
    fn at_unsupported_operator(&mut self) -> (r: bool)
        requires
            old(self).wf(),
        ensures
            final(self).wf(),
            final(self).text() == old(self).text(),
            final(self).vars() == old(self).vars(),
            final(self).unterminated() == old(self).unterminated(),
            0 <= old(self).pos() <= final(self).pos(),
            next_token_spec(final(self).text(), final(self).pos(), final(self).vars())
                == next_token_spec(old(self).text(), old(self).pos(), old(self).vars()),
            r == next_token_spec(old(self).text(), old(self).pos(), old(self).vars()) is None,
    {
        proof {
            lemma_skip_blanks_idempotent(self.text(), self.pos(), self.vars());
            lemma_skip_blanks_bounds(self.text(), self.pos());
        }
        self.skip_whitespace();
        self.ch == '|' || self.ch == '&' || self.ch == '<' || self.ch == ';'
    }

    /// Reads a word: a run of unquoted characters, single-quoted and
    /// double-quoted segments and `$NAME` expansions, concatenated; it stops
    /// at unquoted white space, at an operator or at the end.
    fn read_word(&mut self) -> (w: Vec<char>)
        requires
            old(self).wf(),
        ensures
            final(self).wf(),
            final(self).text() == old(self).text(),
            final(self).vars() == old(self).vars(),
            w@ == scan_word(old(self).text(), old(self).pos(), old(self).vars()).0,
            final(self).pos() == scan_word(old(self).text(), old(self).pos(), old(self).vars()).1,
            final(self).unterminated() == (old(self).unterminated() || scan_word(
                old(self).text(),
                old(self).pos(),
                old(self).vars(),
            ).2),
    {
        let ghost s = self.text();
        let ghost v = self.vars();
        let ghost start = self.pos();
        let ghost mut uacc = false;
        let mut buf: Vec<char> = Vec::new();
        while self.ch != '\0' && !is_word_terminator(self.ch)
            invariant
                self.wf(),
                self.text() == s,
                self.vars() == v,
                self.unterminated() == (old(self).unterminated() || uacc),
                scan_word(s, start, v).0 == buf@ + scan_word(s, self.pos(), v).0,
                scan_word(s, start, v).1 == scan_word(s, self.pos(), v).1,
                scan_word(s, start, v).2 == (uacc || scan_word(s, self.pos(), v).2),
            decreases s.len() - self.pos(),
        {
            let ghost p = self.pos();
            let ghost b = buf@;
            let c = self.ch;
            if c == '\'' {
                self.read_single_quoted(&mut buf);
                proof {
                    lemma_single_quote_end_bounds(s, p + 1);
                    let j = single_quote_end(s, p + 1);
                    assert(b + (s.subrange(p + 1, j) + scan_word(s, self.pos(), v).0) =~= (b
                        + s.subrange(p + 1, j)) + scan_word(s, self.pos(), v).0);
                    uacc = uacc || char_at(s, j) == '\0';
                }
            } else if c == '"' {
                self.read_double_quoted(&mut buf);
                proof {
                    lemma_double_quoted_bounds(s, p + 1, v);
                    let q = double_quoted(s, p + 1, v);
                    assert(b + (q.0 + scan_word(s, self.pos(), v).0) =~= (b + q.0) + scan_word(
                        s,
                        self.pos(),
                        v,
                    ).0);
                    uacc = uacc || q.2;
                }
            } else if c == '$' {
                self.read_char();
                let name = self.read_var_name();
                proof {
                    lemma_var_name_end_bounds(s, p + 1);
                }
                self.push_expansion(&mut buf, &name);
                proof {
                    let e = expansion(name@, v);
                    assert(b + (e + scan_word(s, self.pos(), v).0) =~= (b + e) + scan_word(
                        s,
                        self.pos(),
                        v,
                    ).0);
                }
            } else if c == '\\' {
                self.read_char();
                if self.ch != '\0' {
                    let n = self.ch;
                    buf.push(n);
                    self.read_char();
                    proof {
                        assert(b + (seq![n] + scan_word(s, self.pos(), v).0) =~= (b + seq![n])
                            + scan_word(s, self.pos(), v).0);
                    }
                }
            } else {
                buf.push(c);
                self.read_char();
                proof {
                    assert(b + (seq![c] + scan_word(s, self.pos(), v).0) =~= (b + seq![c])
                        + scan_word(s, self.pos(), v).0);
                }
            }
        }
        assert(buf@ + Seq::<char>::empty() =~= buf@);
        buf
    }
}

/// Whether lexing `input` stays clear of the operators that this shell
/// does not implement.
pub fn lex_supported(input: &str, vars: &Variables) -> (r: bool)
    ensures
        r == lex_spec(input@, vars@) is Some,
{
    let mut lexer = Lexer::new(input, vars);
    let ghost s = input@;
    let ghost v = vars@;
    loop
        invariant
            lexer.wf(),
            lexer.text() == s,
            lexer.vars() == v,
            s == input@,
            v == vars@,
            0 <= lexer.pos(),
            (lex_spec(s, v) is Some) == (lex_from(s, lexer.pos(), v) is Some),
        decreases s.len() - lexer.pos(),
    {
        let ghost p = lexer.pos();
        if lexer.at_unsupported_operator() {
            return false;
        }
        let tok = lexer.next_token();
        proof {
            lemma_next_token_progress(s, p, v);
        }
        if tok.token_type == TokenType::Eof {
            return true;
        }
    }
}

/// Splits a command line into tokens, the last of which is the
/// end-of-input token, and tells whether a quote was left open.
pub fn lex(input: &str, vars: &Variables) -> (r: (Vec<Token>, bool))
    requires
        lex_spec(input@, vars@) is Some,
    ensures
        lex_spec(input@, vars@) == Some((tokens_view(r.0@), r.1)),
{
    let mut lexer = Lexer::new(input, vars);
    let mut tokens: Vec<Token> = Vec::new();
    let ghost s = input@;
    let ghost v = vars@;
    loop
        invariant_except_break
            lexer.wf(),
            lexer.text() == s,
            lexer.vars() == v,
            s == input@,
            v == vars@,
            0 <= lexer.pos(),
            lex_from(s, lexer.pos(), v) is Some,
            lex_spec(s, v) == Some(
                (
                    tokens_view(tokens@) + lex_from(s, lexer.pos(), v).unwrap().0,
                    lexer.unterminated() || lex_from(s, lexer.pos(), v).unwrap().1,
                ),
            ),
        ensures
            lex_spec(s, v) == Some((tokens_view(tokens@), lexer.unterminated())),
        decreases s.len() - lexer.pos(),
    {
        let ghost p = lexer.pos();
        let ghost before = tokens_view(tokens@);
        let tok = lexer.next_token();
        proof {
            lemma_next_token_progress(s, p, v);
        }
        let is_eof = tok.token_type == TokenType::Eof;
        let ghost t = tok@;
        tokens.push(tok);
        assert(tokens_view(tokens@) =~= before.push(t));
        if is_eof {
            assert(before + seq![t] =~= before.push(t));
            break;
        }
        proof {
            let rest = lex_from(s, lexer.pos(), v).unwrap().0;
            assert(before + (seq![t] + rest) =~= before.push(t) + rest);
        }
    }
    let unterminated = lexer.is_unterminated();
    (tokens, unterminated)
}

/// Lexes `input` when it stays clear of the unsupported
/// operators; `None` when it reaches one.
pub fn try_lex(input: &str, vars: &Variables) -> (r: Option<(Vec<Token>, bool)>)
    ensures
        match r {
            Some(res) => lex_spec(input@, vars@) == Some((tokens_view(res.0@), res.1)),
            None => lex_spec(input@, vars@) is None,
        },
{
    if lex_supported(input, vars) {
        Some(lex(input, vars))
    } else {
        None
    }
}

} // verus!
