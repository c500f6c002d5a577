//! A quote-aware word splitter: white space separates words, single
//! quotes toggle a quoted mode in which white space is kept.
use vstd::prelude::*;
use crate::text::{is_whitespace, string_from_chars, unicode_whitespace, chars_of};

verus! {

/// The splitter's state after the characters `s`: the finished words, the
/// word being built, whether a single quote is open, and whether a word
/// has started (an empty pair of quotes starts one).
pub open spec fn tokenize_state(s: Seq<char>) -> (Seq<Seq<char>>, Seq<char>, bool, bool)
    decreases s.len(),
{
    if s.len() == 0 {
        (Seq::empty(), Seq::empty(), false, false)
    } else {
        let st = tokenize_state(s.drop_last());
        let c = s.last();
        if c == '\'' {
            (st.0, st.1, !st.2, true)
        } else if unicode_whitespace(c) && !st.2 {
            if st.3 {
                (st.0.push(st.1), Seq::empty(), st.2, false)
            } else {
                st
            }
        } else {
            (st.0, st.1.push(c), st.2, true)
        }
    }
}

/// The words of `s`, and whether a single quote was left open.
pub open spec fn tokenize_spec(s: Seq<char>) -> (Seq<Seq<char>>, bool) {
    let st = tokenize_state(s);
    (if st.3 { st.0.push(st.1) } else { st.0 }, st.2)
}

/// The view of a list of strings.
pub open spec fn strings_view(v: Seq<String>) -> Seq<Seq<char>> {
    v.map_values(|s: String| s@)
}

/// Splits `input` into words and tells whether a single quote was left
/// open.
pub fn tokenize(input: &str) -> (r: (Vec<String>, bool))
    ensures
        strings_view(r.0@) == tokenize_spec(input@).0,
        r.1 == tokenize_spec(input@).1,
{
    let chars = chars_of(input);
    let mut tokens: Vec<String> = Vec::new();
    let mut current: Vec<char> = Vec::new();
    let mut in_single = false;
    let mut has_token = false;
    let mut i: usize = 0;
    while i < chars.len()
        invariant
            i <= chars.len(),
            chars@ == input@,
            tokenize_state(chars@.subrange(0, i as int)) == (
                strings_view(tokens@),
                current@,
                in_single,
                has_token,
            ),
        decreases chars.len() - i,
    {
        let c = chars[i];
        proof {
            assert(chars@.subrange(0, i + 1).drop_last() =~= chars@.subrange(0, i as int));
        }
        let ghost before = strings_view(tokens@);
        if c == '\'' {
            in_single = !in_single;
            has_token = true;
        } else if is_whitespace(c) && !in_single {
            if has_token {
                let word = string_from_chars(&current);
                let ghost w = word@;
                tokens.push(word);
                current = Vec::new();
                has_token = false;
                assert(strings_view(tokens@) =~= before.push(w));
                assert(current@ =~= Seq::<char>::empty());
            }
        } else {
            current.push(c);
            has_token = true;
        }
        i = i + 1;
    }
    assert(chars@.subrange(0, chars.len() as int) =~= chars@);
    if has_token {
        let ghost before = strings_view(tokens@);
        let word = string_from_chars(&current);
        let ghost w = word@;
        tokens.push(word);
        assert(strings_view(tokens@) =~= before.push(w));
    }
    (tokens, in_single)
}

/// The number of single quotes in `s`.
pub open spec fn quote_count(s: Seq<char>) -> nat
    decreases s.len(),
{
    if s.len() == 0 {
        0
    } else {
        quote_count(s.drop_last()) + if s.last() == '\'' { 1nat } else { 0nat }
    }
}

proof fn lemma_tokenize_state_quotes(s: Seq<char>)
    ensures
        tokenize_state(s).2 == (quote_count(s) % 2 == 1),
        forall|i: int| 0 <= i < tokenize_state(s).0.len() ==> !(#[trigger] tokenize_state(s).0[i]).contains('\''),
        !tokenize_state(s).1.contains('\''),
    decreases s.len(),
{
    if s.len() > 0 {
        let p = s.drop_last();
        lemma_tokenize_state_quotes(p);
        let st = tokenize_state(p);
        let c = s.last();
        if c == '\'' {
        } else if unicode_whitespace(c) && !st.2 {
            if st.3 {
                assert forall|i: int| 0 <= i < tokenize_state(s).0.len() implies !(#[trigger] tokenize_state(s).0[i]).contains('\'') by {
                    if i < st.0.len() {
                        assert(tokenize_state(s).0[i] == st.0[i]);
                    } else {
                        assert(tokenize_state(s).0[i] == st.1);
                    }
                }
                assert(!Seq::<char>::empty().contains('\''));
            }
        } else {
            assert forall|j: int| 0 <= j < st.1.push(c).len() implies st.1.push(c)[j] != '\'' by {
                if j < st.1.len() {
                    assert(st.1.push(c)[j] == st.1[j]);
                }
            }
        }
    }
}

/// Quotes toggle: the splitter reports an open quote exactly when the input
/// holds an odd number of single quotes, and quote characters never appear
/// in the words, only delimit them.
pub proof fn law_tokenize_quotes(s: Seq<char>)
    ensures
        tokenize_spec(s).1 == (quote_count(s) % 2 == 1),
        forall|i: int| 0 <= i < tokenize_spec(s).0.len() ==> !(#[trigger] tokenize_spec(s).0[i]).contains('\''),
{
    lemma_tokenize_state_quotes(s);
    let st = tokenize_state(s);
    if st.3 {
        assert forall|i: int| 0 <= i < tokenize_spec(s).0.len() implies !(#[trigger] tokenize_spec(s).0[i]).contains('\'') by {
            if i < st.0.len() {
                assert(tokenize_spec(s).0[i] == st.0[i]);
            } else {
                assert(tokenize_spec(s).0[i] == st.1);
            }
        }
    }
}

/// The words of `s` when it is split at white space: its maximal runs of
/// characters other than white space, in order.
pub open spec fn split_words(s: Seq<char>) -> Seq<Seq<char>>
    decreases s.len(),
{
    if s.len() == 0 {
        Seq::empty()
    } else {
        let w = split_words(s.drop_last());
        let c = s.last();
        if unicode_whitespace(c) {
            w
        } else if s.len() >= 2 && !unicode_whitespace(s[s.len() - 2]) {
            w.drop_last().push(w.last().push(c))
        } else {
            w.push(seq![c])
        }
    }
}

proof fn lemma_tokenize_state_unquoted(s: Seq<char>)
    requires
        !s.contains('\''),
    ensures
        !tokenize_state(s).2,
        tokenize_state(s).3 == (s.len() > 0 && !unicode_whitespace(s.last())),
        !tokenize_state(s).3 ==> tokenize_state(s).1 == Seq::<char>::empty(),
        tokenize_spec(s).0 == split_words(s),
    decreases s.len(),
{
    if s.len() > 0 {
        let p = s.drop_last();
        assert(!p.contains('\'')) by {
            if p.contains('\'') {
                let i = choose|i: int| 0 <= i < p.len() && p[i] == '\'';
                assert(s[i] == '\'');
            }
        }
        assert(s.last() != '\'') by {
            assert(s[s.len() - 1] == s.last());
        }
        lemma_tokenize_state_unquoted(p);
        let st = tokenize_state(p);
        let w = split_words(p);
        if s.len() >= 2 {
            assert(p.last() == s[s.len() - 2]);
        }
        if !unicode_whitespace(s.last()) && st.3 {
            assert(w == st.0.push(st.1));
            assert(w.drop_last() =~= st.0);
        }
    }
}

/// Without single quotes the splitter splits at white space and reports no
/// open quote.
pub proof fn law_tokenize_without_quotes(s: Seq<char>)
    requires
        !s.contains('\''),
    ensures
        tokenize_spec(s) == (split_words(s), false),
{
    lemma_tokenize_state_unquoted(s);
}

} // verus!
