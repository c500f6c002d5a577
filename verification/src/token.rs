use vstd::prelude::*;

verus! {

/// The kinds of token that the lexer produces.
#[derive(Debug, Clone, Copy, PartialEq, Eq, Structural)]
pub enum TokenType {
    /// A bare word or a quoted string, after expansion.
    Word,
    /// `>`
    Gt,
    /// `>>`
    GtGt,
    /// A run of digits immediately before `>` or `>>`.
    IoNumber,
    /// The end of the input.
    Eof,
    /// A character that the lexer cannot classify.
    Illegal,
}

/// A token: its kind and its text.
#[derive(Debug)]
pub struct Token {
    pub token_type: TokenType,
    pub literal: String,
}

impl View for Token {
    type V = (TokenType, Seq<char>);

    open spec fn view(&self) -> (TokenType, Seq<char>) {
        (self.token_type, self.literal@)
    }
}

impl Token {
    /// Builds a token of the given kind with the given text.
    pub fn new(token_type: TokenType, literal: String) -> (t: Token)
        ensures
            t.token_type == token_type,
            t.literal@ == literal@,
    {
        Token { token_type, literal }
    }
}

} // verus!
