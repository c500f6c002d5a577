//! How the lexer relates to the word splitter: on plain text, without
//! double quotes, escapes, expansions, operators or white space beyond the
//! ASCII blanks, both find the same words and the same open quote.
use vstd::prelude::*;
use crate::grammar::{
    char_at, digit_run_end, is_blank, lemma_digit_run_end_bounds, lemma_next_token_progress,
    lemma_scan_word_bounds, lemma_single_quote_end_bounds, lemma_skip_blanks_bounds, lex_from, lex_spec,
    next_token_spec, scan_word, single_quote_end, skip_blanks, word_terminator,
};
use crate::text::unicode_whitespace;
use crate::token::TokenType;
use crate::tokenizer::{tokenize_spec, tokenize_state};

verus! {

/// Text on which the lexer and the splitter agree: no double quote,
/// backslash, `$`, operator or `'\0'`, and no white space but the ASCII
/// blanks.
pub open spec fn plain_text(s: Seq<char>) -> bool {
    forall|i: int| 0 <= i < s.len() ==> {
        let c = #[trigger] s[i];
        &&& c != '"' && c != '\\' && c != '$' && c != '\0'
        &&& c != '>' && c != '|' && c != '&' && c != ';' && c != '<'
        &&& unicode_whitespace(c) ==> is_blank(c)
    }
}

/// The tokens that the lexer gives for a list of words: a word token for
/// each, then the end-of-input token.
pub open spec fn word_tokens(ws: Seq<Seq<char>>) -> Seq<(TokenType, Seq<char>)> {
    ws.map_values(|w: Seq<char>| (TokenType::Word, w)) + seq![(TokenType::Eof, Seq::<char>::empty())]
}

/// One character of the splitter: its state is the finished words, the
/// word being built, whether a single quote is open and whether a word has
/// started.
pub open spec fn split_step(st: (Seq<Seq<char>>, Seq<char>, bool, bool), c: char) -> (Seq<Seq<char>>, Seq<char>, bool, bool) {
    if c == '\'' {
        (st.0, st.1, !st.2, true)
    } else if unicode_whitespace(c) && !st.2 {
        if st.3 {
            (st.0.push(st.1), Seq::empty(), st.2, false)
        } else {
            st
        }
    } else {
        (st.0, st.1.push(c), st.2, true)
    }
}

/// The splitter's state after the characters `t`, from state `st`.
pub open spec fn split_run(st: (Seq<Seq<char>>, Seq<char>, bool, bool), t: Seq<char>) -> (Seq<Seq<char>>, Seq<char>, bool, bool)
    decreases t.len(),
{
    if t.len() == 0 {
        st
    } else {
        split_step(split_run(st, t.drop_last()), t.last())
    }
}

/// The words and the open-quote flag that a final splitter state gives.
pub open spec fn split_finish(st: (Seq<Seq<char>>, Seq<char>, bool, bool)) -> (Seq<Seq<char>>, bool) {
    (if st.3 { st.0.push(st.1) } else { st.0 }, st.2)
}

proof fn lemma_run_append(st: (Seq<Seq<char>>, Seq<char>, bool, bool), a: Seq<char>, b: Seq<char>)
    ensures
        split_run(st, a + b) == split_run(split_run(st, a), b),
    decreases b.len(),
{
    if b.len() == 0 {
        assert(a + b =~= a);
    } else {
        assert((a + b).drop_last() =~= a + b.drop_last());
        assert((a + b).last() == b.last());
        lemma_run_append(st, a, b.drop_last());
    }
}

proof fn lemma_state_is_run(s: Seq<char>)
    ensures
        tokenize_state(s) == split_run((Seq::empty(), Seq::empty(), false, false), s),
    decreases s.len(),
{
    if s.len() > 0 {
        lemma_state_is_run(s.drop_last());
    }
}

/// Running over `s[i..j]` is a step on `s[i]` and a run over the rest.
proof fn lemma_run_first(st: (Seq<Seq<char>>, Seq<char>, bool, bool), s: Seq<char>, i: int, j: int)
    requires
        0 <= i < j <= s.len(),
    ensures
        split_run(st, s.subrange(i, j)) == split_run(split_step(st, s[i]), s.subrange(i + 1, j)),
{
    assert(s.subrange(i, j) =~= s.subrange(i, i + 1) + s.subrange(i + 1, j));
    lemma_run_append(st, s.subrange(i, i + 1), s.subrange(i + 1, j));
    let one = s.subrange(i, i + 1);
    assert(one.drop_last() =~= Seq::<char>::empty());
    assert(one.last() == s[i]);
    assert(split_run(st, one.drop_last()) == st);
    assert(split_run(st, one) == split_step(st, s[i]));
}

/// Blanks between words change nothing.
proof fn lemma_run_blanks(st: (Seq<Seq<char>>, Seq<char>, bool, bool), s: Seq<char>, p: int)
    requires
        0 <= p <= s.len(),
        !st.2,
        !st.3,
    ensures
        split_run(st, s.subrange(p, skip_blanks(s, p))) == st,
    decreases s.len() - p,
{
    lemma_skip_blanks_bounds(s, p);
    if p < s.len() && is_blank(s[p]) {
        lemma_skip_blanks_bounds(s, p + 1);
        lemma_run_first(st, s, p, skip_blanks(s, p));
        lemma_run_blanks(st, s, p + 1);
    } else {
        assert(s.subrange(p, p) =~= Seq::<char>::empty());
    }
}

/// Inside a single quote every character up to the closing quote is kept.
proof fn lemma_run_quoted(w: Seq<Seq<char>>, cur: Seq<char>, s: Seq<char>, i: int)
    requires
        0 <= i <= s.len(),
    ensures
        split_run((w, cur, true, true), s.subrange(i, single_quote_end(s, i))) == (
            w,
            cur + s.subrange(i, single_quote_end(s, i)),
            true,
            true,
        ),
    decreases s.len() - i,
{
    lemma_single_quote_end_bounds(s, i);
    let j = single_quote_end(s, i);
    if i < s.len() && s[i] != '\'' && s[i] != '\0' {
        lemma_single_quote_end_bounds(s, i + 1);
        lemma_run_first((w, cur, true, true), s, i, j);
        lemma_run_quoted(w, cur.push(s[i]), s, i + 1);
        assert(cur.push(s[i]) + s.subrange(i + 1, j) =~= cur + s.subrange(i, j));
    } else {
        assert(s.subrange(i, i) =~= Seq::<char>::empty());
        assert(cur + s.subrange(i, i) =~= cur);
    }
}

proof fn lemma_single_quote_end_stops(s: Seq<char>, i: int)
    requires
        0 <= i,
    ensures
        single_quote_end(s, i) < s.len() ==> (s[single_quote_end(s, i)] == '\'' || s[single_quote_end(s, i)]
            == '\0'),
    decreases s.len() - i,
{
    if 0 <= i < s.len() && s[i] != '\'' && s[i] != '\0' {
        lemma_single_quote_end_stops(s, i + 1);
    }
}

/// A word ends at the end of the input or before a character that ends it.
proof fn lemma_scan_word_stops(s: Seq<char>, i: int, vars: Seq<(Seq<char>, Seq<char>)>)
    ensures
        char_at(s, scan_word(s, i, vars).1) == '\0' || word_terminator(char_at(s, scan_word(s, i, vars).1)),
    decreases s.len() - i,
{
    let c = char_at(s, i);
    if c == '\0' || word_terminator(c) {
    } else if c == '\'' {
        let j = single_quote_end(s, i + 1);
        lemma_single_quote_end_bounds(s, i + 1);
        let next = if char_at(s, j) == '\'' { j + 1 } else { j };
        lemma_scan_word_stops(s, next, vars);
    } else if c == '"' {
        crate::grammar::lemma_double_quoted_bounds(s, i + 1, vars);
        lemma_scan_word_stops(s, crate::grammar::double_quoted(s, i + 1, vars).1, vars);
    } else if c == '$' {
        crate::grammar::lemma_var_name_end_bounds(s, i + 1);
        lemma_scan_word_stops(s, crate::grammar::var_name_end(s, i + 1), vars);
    } else if c == '\\' {
        if char_at(s, i + 1) != '\0' {
            lemma_scan_word_stops(s, i + 2, vars);
        } else {
            lemma_scan_word_stops(s, i + 1, vars);
        }
    } else {
        lemma_scan_word_stops(s, i + 1, vars);
    }
}

/// On plain text, running the splitter over a word that the lexer scans
/// builds that word and leaves a quote open exactly when the lexer does.
proof fn lemma_run_word(
    w: Seq<Seq<char>>,
    cur: Seq<char>,
    h: bool,
    s: Seq<char>,
    i: int,
    vars: Seq<(Seq<char>, Seq<char>)>,
)
    requires
        plain_text(s),
        0 <= i <= s.len(),
    ensures
        split_run((w, cur, false, h), s.subrange(i, scan_word(s, i, vars).1)) == (
            w,
            cur + scan_word(s, i, vars).0,
            scan_word(s, i, vars).2,
            h || i < scan_word(s, i, vars).1,
        ),
    decreases s.len() - i,
{
    lemma_scan_word_bounds(s, i, vars);
    let sw = scan_word(s, i, vars);
    let k = sw.1;
    let c = char_at(s, i);
    if c == '\0' || word_terminator(c) {
        assert(s.subrange(i, i) =~= Seq::<char>::empty());
        assert(cur + Seq::<char>::empty() =~= cur);
    } else if c == '\'' {
        assert(s[i] == c);
        let j = single_quote_end(s, i + 1);
        lemma_single_quote_end_bounds(s, i + 1);
        lemma_run_first((w, cur, false, h), s, i, k);
        let st1 = (w, cur, true, true);
        assert(split_step((w, cur, false, h), c) == st1);
        lemma_run_quoted(w, cur, s, i + 1);
        let cur2 = cur + s.subrange(i + 1, j);
        if char_at(s, j) == '\'' {
            lemma_scan_word_bounds(s, j + 1, vars);
            assert(s.subrange(i + 1, k) =~= s.subrange(i + 1, j) + s.subrange(j, k));
            lemma_run_append(st1, s.subrange(i + 1, j), s.subrange(j, k));
            lemma_run_first((w, cur2, true, true), s, j, k);
            assert(split_step((w, cur2, true, true), s[j]) == (w, cur2, false, true));
            lemma_run_word(w, cur2, true, s, j + 1, vars);
            assert(cur2 + scan_word(s, j + 1, vars).0 =~= cur + sw.0);
        } else {
            lemma_single_quote_end_stops(s, i + 1);
            if j < s.len() {
                assert(s[j] != '\0');
            }
            assert(j == s.len());
            assert(scan_word(s, j, vars) == (Seq::<char>::empty(), j, false));
            assert(k == j);
            assert(sw.0 =~= s.subrange(i + 1, j));
        }
    } else {
        assert(s[i] == c);
        assert(!unicode_whitespace(c));
        lemma_run_first((w, cur, false, h), s, i, k);
        assert(split_step((w, cur, false, h), c) == (w, cur.push(c), false, true));
        lemma_run_word(w, cur.push(c), true, s, i + 1, vars);
        assert(cur.push(c) + scan_word(s, i + 1, vars).0 =~= cur + sw.0);
    }
}

/// On plain text a run of digits that no `>` follows is the start of an
/// ordinary word.
proof fn lemma_digits_start_word(s: Seq<char>, q: int, vars: Seq<(Seq<char>, Seq<char>)>)
    requires
        plain_text(s),
        0 <= q <= s.len(),
    ensures
        scan_word(s, q, vars) == (
            s.subrange(q, digit_run_end(s, q)) + scan_word(s, digit_run_end(s, q), vars).0,
            scan_word(s, digit_run_end(s, q), vars).1,
            scan_word(s, digit_run_end(s, q), vars).2,
        ),
    decreases s.len() - q,
{
    let r = digit_run_end(s, q);
    lemma_digit_run_end_bounds(s, q);
    if q < s.len() && '0' <= s[q] && s[q] <= '9' {
        lemma_digits_start_word(s, q + 1, vars);
        assert(seq![s[q]] + (s.subrange(q + 1, r) + scan_word(s, r, vars).0) =~= s.subrange(q, r)
            + scan_word(s, r, vars).0);
    } else {
        assert(s.subrange(q, q) + scan_word(s, q, vars).0 =~= scan_word(s, q, vars).0);
    }
}

/// From position `p` of plain text, the lexer gives a word token for each
/// word that the splitter finishes from there, then the end of the input,
/// with the splitter's open-quote flag.
proof fn lemma_lex_from_plain(s: Seq<char>, p: int, w: Seq<Seq<char>>, vars: Seq<(Seq<char>, Seq<char>)>)
    requires
        plain_text(s),
        0 <= p <= s.len(),
    ensures
        ({
            let fin = split_finish(split_run((w, Seq::empty(), false, false), s.subrange(p, s.len() as int)));
            &&& w.len() <= fin.0.len()
            &&& fin.0.subrange(0, w.len() as int) == w
            &&& lex_from(s, p, vars) == Some((word_tokens(fin.0.subrange(w.len() as int, fin.0.len() as int)), fin.1))
        }),
    decreases s.len() - p,
{
    let idle = (w, Seq::<char>::empty(), false, false);
    let n = s.len() as int;
    lemma_skip_blanks_bounds(s, p);
    let q = skip_blanks(s, p);
    lemma_run_blanks(idle, s, p);
    assert(s.subrange(p, n) =~= s.subrange(p, q) + s.subrange(q, n));
    lemma_run_append(idle, s.subrange(p, q), s.subrange(q, n));
    let fin = split_finish(split_run(idle, s.subrange(p, n)));
    assert(split_run(idle, s.subrange(p, n)) == split_run(idle, s.subrange(q, n)));
    lemma_next_token_progress(s, p, vars);
    if q == n {
        assert(s.subrange(q, n) =~= Seq::<char>::empty());
        assert(fin == (w, false));
        assert(fin.0.subrange(0, w.len() as int) =~= w);
        assert(fin.0.subrange(w.len() as int, fin.0.len() as int) =~= Seq::<Seq<char>>::empty());
        assert(word_tokens(Seq::<Seq<char>>::empty()) =~= seq![(TokenType::Eof, Seq::<char>::empty())]);
    } else {
        let c = s[q];
        assert(char_at(s, q) == c);
        if '0' <= c && c <= '9' {
            lemma_digit_run_end_bounds(s, q);
            lemma_digits_start_word(s, q, vars);
            assert(char_at(s, digit_run_end(s, q)) != '>');
        }
        let sw = scan_word(s, q, vars);
        let k = sw.1;
        lemma_scan_word_bounds(s, q, vars);
        assert(next_token_spec(s, p, vars) == Some(((TokenType::Word, sw.0), k, sw.2)));
        lemma_run_word(w, Seq::empty(), false, s, q, vars);
        assert(Seq::<char>::empty() + sw.0 =~= sw.0);
        let st1 = (w, sw.0, sw.2, true);
        assert(split_run(idle, s.subrange(q, k)) == st1);
        assert(s.subrange(q, n) =~= s.subrange(q, k) + s.subrange(k, n));
        lemma_run_append(idle, s.subrange(q, k), s.subrange(k, n));
        let wt = w.push(sw.0);
        if k == n {
            assert(s.subrange(k, n) =~= Seq::<char>::empty());
            assert(fin == (wt, sw.2));
            assert(next_token_spec(s, k, vars) == Some(((TokenType::Eof, Seq::<char>::empty()), k, false)));
            assert(lex_from(s, k, vars) == Some((seq![(TokenType::Eof, Seq::<char>::empty())], false)));
            assert(fin.0.subrange(0, w.len() as int) =~= w);
            assert(fin.0.subrange(w.len() as int, fin.0.len() as int) =~= seq![sw.0]);
            assert(word_tokens(seq![sw.0]) =~= seq![(TokenType::Word, sw.0)] + seq![(TokenType::Eof, Seq::<char>::empty())]);
        } else {
            // The word ends at a blank; an open quote would have run to the end.
            lemma_scan_word_stops(s, q, vars);
            assert(s[k] != '\0');
            assert(word_terminator(s[k]));
            assert(is_blank(s[k]));
            assert(!sw.2) by {
                if sw.2 {
                    crate::grammar::lemma_scan_word_open(s, q, vars);
                }
            }
            lemma_run_first(st1, s, k, n);
            let idle2 = (wt, Seq::<char>::empty(), false, false);
            assert(split_step(st1, s[k]) == idle2);
            lemma_lex_from_plain(s, k + 1, wt, vars);
            lemma_skip_blanks_bounds(s, k + 1);
            assert(skip_blanks(s, k) == skip_blanks(s, k + 1));
            assert(next_token_spec(s, k, vars) == next_token_spec(s, k + 1, vars));
            assert(lex_from(s, k, vars) == lex_from(s, k + 1, vars));
            let fin2 = split_finish(split_run(idle2, s.subrange(k + 1, n)));
            assert(fin2 == fin);
            let rest = fin.0.subrange(wt.len() as int, fin.0.len() as int);
            assert(fin.0.subrange(0, wt.len() as int) == wt);
            assert(fin.0.subrange(0, w.len() as int) =~= fin.0.subrange(0, wt.len() as int).subrange(0, w.len() as int));
            assert(fin.0[w.len() as int] == fin.0.subrange(0, wt.len() as int)[w.len() as int]);
            let all = fin.0.subrange(w.len() as int, fin.0.len() as int);
            assert(all =~= seq![sw.0] + rest);
            assert(word_tokens(all) =~= seq![(TokenType::Word, sw.0)] + word_tokens(rest));
        }
    }
}

/// On plain text the lexer and the splitter agree: the lexer gives a word
/// token for each of the splitter's words, then the end-of-input token, and
/// both report the same open quote.
pub proof fn law_lex_agrees_with_tokenize(s: Seq<char>, vars: Seq<(Seq<char>, Seq<char>)>)
    requires
        plain_text(s),
    ensures
        lex_spec(s, vars) == Some((word_tokens(tokenize_spec(s).0), tokenize_spec(s).1)),
{
    lemma_lex_from_plain(s, 0, Seq::empty(), vars);
    lemma_state_is_run(s);
    assert(s.subrange(0, s.len() as int) =~= s);
    let fin = split_finish(tokenize_state(s));
    assert(fin.0.subrange(0, 0) =~= Seq::<Seq<char>>::empty());
    assert(fin.0.subrange(0, fin.0.len() as int) =~= fin.0);
}

} // verus!
