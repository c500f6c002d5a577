//! The parser: turns tokens into a simple command with redirections.
use vstd::prelude::*;
use crate::ast::{RedirOp, Redirection, SimpleCommand, redirs_view};
use crate::lexer::tokens_view;
use crate::number::{decimal_u32, parse_u32};
use crate::token::{Token, TokenType};

verus! {

/// The token at a position; the end-of-input token past the end.
pub open spec fn tok_at(toks: Seq<(TokenType, Seq<char>)>, p: int) -> (TokenType, Seq<char>) {
    if 0 <= p < toks.len() {
        toks[p]
    } else {
        (TokenType::Eof, Seq::empty())
    }
}

/// The position after consuming the token at `p`: the end-of-input token
/// is never consumed.
pub open spec fn advance_pos(toks: Seq<(TokenType, Seq<char>)>, p: int) -> int {
    if tok_at(toks, p).0 != TokenType::Eof {
        p + 1
    } else {
        p
    }
}

/// Why a command line does not parse.
#[derive(Debug)]
pub enum ParseError {
    /// A file descriptor number not followed by `>` or `>>`.
    IsolatedIoNumber,
    /// A file descriptor number too large for 32 bits.
    InvalidIoNumber(String),
    /// A redirection operator not followed by a word.
    NonWordTarget(Token),
}

/// The view of a parse error.
pub enum ParseFailure {
    IsolatedIoNumber,
    InvalidIoNumber(Seq<char>),
    NonWordTarget((TokenType, Seq<char>)),
}

impl View for ParseError {
    type V = ParseFailure;

    open spec fn view(&self) -> ParseFailure {
        match self {
            ParseError::IsolatedIoNumber => ParseFailure::IsolatedIoNumber,
            ParseError::InvalidIoNumber(s) => ParseFailure::InvalidIoNumber(s@),
            ParseError::NonWordTarget(t) => ParseFailure::NonWordTarget(t@),
        }
    }
}

/// The words and redirections of the tokens from position `p` on, added to
/// those collected so far; an error where the tokens do not form a command;
/// `None` where the parser meets a token that the lexer never produces.
pub open spec fn parse_from(
    toks: Seq<(TokenType, Seq<char>)>,
    p: int,
    words: Seq<Seq<char>>,
    redirs: Seq<(u32, RedirOp, Seq<char>)>,
) -> Option<Result<(Seq<Seq<char>>, Seq<(u32, RedirOp, Seq<char>)>), ParseFailure>>
    decreases toks.len() - p,
{
    let t = tok_at(toks, p);
    match t.0 {
        TokenType::Eof => Some(Ok((words, redirs))),
        TokenType::Illegal => None,
        TokenType::Word => parse_from(toks, advance_pos(toks, p), words.push(t.1), redirs),
        TokenType::IoNumber => {
            let nt = tok_at(toks, p + 1).0;
            if nt != TokenType::Gt && nt != TokenType::GtGt {
                Some(Err(ParseFailure::IsolatedIoNumber))
            } else {
                let op = if nt == TokenType::GtGt {
                    RedirOp::Append
                } else {
                    RedirOp::Out
                };
                let p2 = advance_pos(toks, advance_pos(toks, p));
                match decimal_u32(t.1) {
                    None => Some(Err(ParseFailure::InvalidIoNumber(t.1))),
                    Some(fd) => {
                        let target = tok_at(toks, p2);
                        if target.0 != TokenType::Word {
                            Some(Err(ParseFailure::NonWordTarget(target)))
                        } else {
                            parse_from(
                                toks,
                                advance_pos(toks, p2),
                                words,
                                redirs.push((fd, op, target.1)),
                            )
                        }
                    },
                }
            }
        },
        _ => {
            let op = if t.0 == TokenType::GtGt {
                RedirOp::Append
            } else {
                RedirOp::Out
            };
            let p1 = advance_pos(toks, p);
            let target = tok_at(toks, p1);
            if target.0 != TokenType::Word {
                Some(Err(ParseFailure::NonWordTarget(target)))
            } else {
                parse_from(toks, advance_pos(toks, p1), words, redirs.push((1u32, op, target.1)))
            }
        },
    }
}

/// What parsing a token list yields: `Some(command)` when it names a
/// command, `None` when it has no word; an error where it is malformed.
pub open spec fn parse_spec(toks: Seq<(TokenType, Seq<char>)>) -> Option<
    Result<Option<(Seq<Seq<char>>, Seq<(u32, RedirOp, Seq<char>)>)>, ParseFailure>,
> {
    match parse_from(toks, 0, Seq::empty(), Seq::empty()) {
        None => None,
        Some(Err(e)) => Some(Err(e)),
        Some(Ok((w, r))) => Some(Ok(if w.len() == 0 { None } else { Some((w, r)) })),
    }
}

/// A token list without illegal tokens always gets an answer from the
/// parser: a command or the reason it is malformed.
pub proof fn law_parse_total(
    toks: Seq<(TokenType, Seq<char>)>,
    p: int,
    words: Seq<Seq<char>>,
    redirs: Seq<(u32, RedirOp, Seq<char>)>,
)
    requires
        forall|i: int| 0 <= i < toks.len() ==> #[trigger] toks[i].0 != TokenType::Illegal,
    ensures
        parse_from(toks, p, words, redirs) is Some,
    decreases toks.len() - p,
{
    let t = tok_at(toks, p);
    if 0 <= p < toks.len() {
        assert(toks[p].0 != TokenType::Illegal);
    }
    match t.0 {
        TokenType::Eof => {},
        TokenType::Illegal => {},
        TokenType::Word => {
            law_parse_total(toks, advance_pos(toks, p), words.push(t.1), redirs);
        },
        TokenType::IoNumber => {
            let nt = tok_at(toks, p + 1).0;
            if nt == TokenType::Gt || nt == TokenType::GtGt {
                let op = if nt == TokenType::GtGt {
                    RedirOp::Append
                } else {
                    RedirOp::Out
                };
                let p2 = advance_pos(toks, advance_pos(toks, p));
                match decimal_u32(t.1) {
                    None => {},
                    Some(fd) => {
                        let target = tok_at(toks, p2);
                        if target.0 == TokenType::Word {
                            law_parse_total(
                                toks,
                                advance_pos(toks, p2),
                                words,
                                redirs.push((fd, op, target.1)),
                            );
                        }
                    },
                }
            }
        },
        _ => {
            let op = if t.0 == TokenType::GtGt {
                RedirOp::Append
            } else {
                RedirOp::Out
            };
            let p1 = advance_pos(toks, p);
            let target = tok_at(toks, p1);
            if target.0 == TokenType::Word {
                law_parse_total(toks, advance_pos(toks, p1), words, redirs.push((1u32, op, target.1)));
            }
        },
    }
}

/// Parsing from a position at or before the end of `a` reads the same tokens
/// in `a` followed by an end-of-input token and anything after it.
proof fn lemma_parse_from_prefix(
    a: Seq<(TokenType, Seq<char>)>,
    b: Seq<(TokenType, Seq<char>)>,
    p: int,
    words: Seq<Seq<char>>,
    redirs: Seq<(u32, RedirOp, Seq<char>)>,
)
    requires
        0 <= p <= a.len(),
    ensures
        parse_from(a + seq![(TokenType::Eof, Seq::<char>::empty())] + b, p, words, redirs)
            == parse_from(a, p, words, redirs),
    decreases a.len() - p,
{
    let c = a + seq![(TokenType::Eof, Seq::<char>::empty())] + b;
    assert forall|q: int| 0 <= q <= a.len() implies #[trigger] tok_at(c, q) == tok_at(a, q) by {
        if q < a.len() {
            assert(c[q] == a[q]);
        } else {
            assert(c[q] == (TokenType::Eof, Seq::<char>::empty()));
        }
    }
    let t = tok_at(a, p);
    assert(tok_at(c, p) == t);
    match t.0 {
        TokenType::Eof => {},
        TokenType::Illegal => {},
        TokenType::Word => {
            lemma_parse_from_prefix(a, b, p + 1, words.push(t.1), redirs);
        },
        TokenType::IoNumber => {
            assert(tok_at(c, p + 1) == tok_at(a, p + 1));
            let nt = tok_at(a, p + 1).0;
            if nt == TokenType::Gt || nt == TokenType::GtGt {
                let op = if nt == TokenType::GtGt {
                    RedirOp::Append
                } else {
                    RedirOp::Out
                };
                let p2 = p + 2;
                assert(advance_pos(a, advance_pos(a, p)) == p2);
                assert(advance_pos(c, advance_pos(c, p)) == p2);
                match decimal_u32(t.1) {
                    None => {},
                    Some(fd) => {
                        let target = tok_at(a, p2);
                        assert(tok_at(c, p2) == target);
                        if target.0 == TokenType::Word {
                            lemma_parse_from_prefix(a, b, p2 + 1, words, redirs.push((fd, op, target.1)));
                        }
                    },
                }
            }
        },
        _ => {
            let op = if t.0 == TokenType::GtGt {
                RedirOp::Append
            } else {
                RedirOp::Out
            };
            let target = tok_at(a, p + 1);
            assert(tok_at(c, p + 1) == target);
            if target.0 == TokenType::Word {
                lemma_parse_from_prefix(a, b, p + 2, words, redirs.push((1u32, op, target.1)));
            }
        },
    }
}

/// The parser stops at the first end-of-input token: what follows it is
/// ignored, and a token list without a final end-of-input token parses as
/// if it had one.
pub proof fn law_parse_stops_at_eof(a: Seq<(TokenType, Seq<char>)>, b: Seq<(TokenType, Seq<char>)>)
    ensures
        parse_spec(a + seq![(TokenType::Eof, Seq::<char>::empty())] + b) == parse_spec(a),
{
    lemma_parse_from_prefix(a, b, 0, Seq::empty(), Seq::empty());
}

/// Reads a token list into a simple command.
pub struct Parser {
    tokens: Vec<Token>,
    pos: usize,
    eof: Token,
}

impl Parser {
    /// The tokens being parsed.
    pub closed spec fn toks(&self) -> Seq<(TokenType, Seq<char>)> {
        tokens_view(self.tokens@)
    }

    /// The position of the current token.
    pub closed spec fn position(&self) -> int {
        self.pos as int
    }

    /// The parser's internal consistency.
    pub closed spec fn wf(&self) -> bool {
        &&& self.pos <= self.tokens.len()
        &&& self.eof@ == (TokenType::Eof, Seq::<char>::empty())
    }

    /// A parser positioned at the first token.
    pub fn new(tokens: Vec<Token>) -> (p: Parser)
        ensures
            p.wf(),
            p.toks() == tokens_view(tokens@),
            p.position() == 0,
    {
        let eof = Token::new(TokenType::Eof, String::new());
        assert(eof@ == (TokenType::Eof, Seq::<char>::empty()));
        Parser { tokens, pos: 0, eof }
    }

    fn cur_token(&self) -> (t: &Token)
        requires
            self.wf(),
        ensures
            t@ == tok_at(self.toks(), self.position()),
    {
        if self.pos < self.tokens.len() {
            &self.tokens[self.pos]
        } else {
            &self.eof
        }
    }

    fn peek_token(&self) -> (t: &Token)
        requires
            self.wf(),
        ensures
            t@ == tok_at(self.toks(), self.position() + 1),
    {
        if self.pos < self.tokens.len() && self.pos + 1 < self.tokens.len() {
            &self.tokens[self.pos + 1]
        } else {
            &self.eof
        }
    }

    fn advance(&mut self)
        requires
            old(self).wf(),
        ensures
            final(self).wf(),
            final(self).toks() == old(self).toks(),
            final(self).position() == advance_pos(old(self).toks(), old(self).position()),
    {
        if self.cur_token().token_type != TokenType::Eof {
            self.pos = self.pos + 1;
        }
    }

    /// Parses the tokens from the current position on: `Ok(Some(command))`
    /// when they name a command, `Ok(None)` when they hold no word, and
    /// the reason where they are malformed.
    pub fn parse_result(&mut self) -> (r: Result<Option<SimpleCommand>, ParseError>)
        requires
            old(self).wf(),
            parse_from(old(self).toks(), old(self).position(), Seq::empty(), Seq::empty()) is Some,
        ensures
            final(self).wf(),
            final(self).toks() == old(self).toks(),
            ({
                let out = parse_from(
                    old(self).toks(),
                    old(self).position(),
                    Seq::empty(),
                    Seq::empty(),
                ).unwrap();
                match r {
                    Ok(Some(c)) => out == Ok::<_, ParseFailure>(c@) && c@.0.len() > 0,
                    Ok(None) => out matches Ok((w, _)) && w.len() == 0,
                    Err(e) => out == Err::<(Seq<Seq<char>>, Seq<(u32, RedirOp, Seq<char>)>), _>(e@),
                }
            }),
    {
        let ghost toks = self.toks();
        let ghost start = self.position();
        let mut words: Vec<String> = Vec::new();
        let mut redirs: Vec<Redirection> = Vec::new();
        assert(words@.map_values(|s: String| s@) =~= Seq::<Seq<char>>::empty());
        assert(redirs_view(redirs@) =~= Seq::<(u32, RedirOp, Seq<char>)>::empty());
        loop
            invariant_except_break
                self.wf(),
                self.toks() == toks,
                toks == old(self).toks(),
                start == old(self).position(),
                parse_from(toks, start, Seq::empty(), Seq::empty()) == parse_from(
                    toks,
                    self.position(),
                    words@.map_values(|s: String| s@),
                    redirs_view(redirs@),
                ),
                parse_from(toks, start, Seq::empty(), Seq::empty()) is Some,
            ensures
                self.wf(),
                self.toks() == toks,
                parse_from(toks, start, Seq::empty(), Seq::empty()) == Some(
                    Ok::<_, ParseFailure>((words@.map_values(|s: String| s@), redirs_view(redirs@))),
                ),
            decreases toks.len() - self.position(),
        {
            let ghost p = self.position();
            let ghost wv = words@.map_values(|s: String| s@);
            let ghost rv = redirs_view(redirs@);
            let cur = self.cur_token();
            let kind = cur.token_type;
            if kind == TokenType::Eof {
                break;
            } else if kind == TokenType::Word {
                let w = cur.literal.clone();
                let ghost lit = w@;
                words.push(w);
                assert(words@.map_values(|s: String| s@) =~= wv.push(lit));
            } else if kind == TokenType::IoNumber {
                let literal = cur.literal.clone();
                let next = self.peek_token().token_type;
                if next != TokenType::Gt && next != TokenType::GtGt {
                    return Err(ParseError::IsolatedIoNumber);
                }
                let op = if next == TokenType::GtGt {
                    RedirOp::Append
                } else {
                    RedirOp::Out
                };
                self.advance();
                self.advance();
                let fd = match parse_u32(literal.as_str()) {
                    Some(fd) => fd,
                    None => {
                        return Err(ParseError::InvalidIoNumber(literal));
                    },
                };
                let target = self.cur_token();
                if target.token_type != TokenType::Word {
                    return Err(ParseError::NonWordTarget(Token::new(target.token_type, target.literal.clone())));
                }
                let r = Redirection { fd, op, target: target.literal.clone() };
                let ghost rview = r@;
                redirs.push(r);
                assert(redirs_view(redirs@) =~= rv.push(rview));
            } else if kind == TokenType::Illegal {
                // The lexer never produces an illegal token: the contract
                // keeps it out of the input.
                assert(false);
            } else {
                let op = if kind == TokenType::GtGt {
                    RedirOp::Append
                } else {
                    RedirOp::Out
                };
                self.advance();
                let target = self.cur_token();
                if target.token_type != TokenType::Word {
                    return Err(ParseError::NonWordTarget(Token::new(target.token_type, target.literal.clone())));
                }
                let r = Redirection { fd: 1, op, target: target.literal.clone() };
                let ghost rview = r@;
                redirs.push(r);
                assert(redirs_view(redirs@) =~= rv.push(rview));
            }
            self.advance();
        }
        if words.len() == 0 {
            Ok(None)
        } else {
            Ok(Some(SimpleCommand { argv: words, redirs }))
        }
    }

    /// Parses the tokens into a command; `None` when they hold no word or
    /// are malformed.
    pub fn parse(&mut self) -> (r: Option<SimpleCommand>)
        requires
            old(self).wf(),
            parse_from(old(self).toks(), old(self).position(), Seq::empty(), Seq::empty()) is Some,
        ensures
            final(self).wf(),
            final(self).toks() == old(self).toks(),
            ({
                let out = parse_from(
                    old(self).toks(),
                    old(self).position(),
                    Seq::empty(),
                    Seq::empty(),
                ).unwrap();
                match r {
                    Some(c) => out == Ok::<_, ParseFailure>(c@) && c@.0.len() > 0,
                    None => out is Err || (out matches Ok((w, _)) && w.len() == 0),
                }
            }),
    {
        match self.parse_result() {
            Ok(c) => c,
            Err(_) => None,
        }
    }
}

/// A descriptor number before `>` or `>>` and a word redirects that
/// descriptor: the redirection gets the number's decimal value, truncates
/// for `>` and appends for `>>`, and parsing goes on after the word.
pub proof fn law_io_number_redirects_its_descriptor(
    toks: Seq<(TokenType, Seq<char>)>,
    p: int,
    words: Seq<Seq<char>>,
    redirs: Seq<(u32, RedirOp, Seq<char>)>,
    fd: u32,
    target: Seq<char>,
)
    requires
        0 <= p,
        p + 2 < toks.len(),
        toks[p].0 == TokenType::IoNumber,
        decimal_u32(toks[p].1) == Some(fd),
        toks[p + 1].0 == TokenType::Gt || toks[p + 1].0 == TokenType::GtGt,
        toks[p + 2] == (TokenType::Word, target),
    ensures
        parse_from(toks, p, words, redirs) == parse_from(
            toks,
            p + 3,
            words,
            redirs.push(
                (
                    fd,
                    if toks[p + 1].0 == TokenType::GtGt {
                        RedirOp::Append
                    } else {
                        RedirOp::Out
                    },
                    target,
                ),
            ),
        ),
{
    assert(tok_at(toks, p) == toks[p]);
    assert(tok_at(toks, p + 1) == toks[p + 1]);
    assert(tok_at(toks, p + 2) == toks[p + 2]);
    assert(advance_pos(toks, p) == p + 1);
    assert(advance_pos(toks, p + 1) == p + 2);
    assert(advance_pos(toks, p + 2) == p + 3);
}

} // verus!
