use std::ops::Range;
use vstd::prelude::*;

verus! {

/// The class of a token, as far as highlighting is concerned.
#[derive(Debug, Clone, Copy, PartialEq, Eq, Structural)]
pub enum TokenType {
    Keyword,
    /// One of `(`, `)`, `[`, `]`, `{`, `}`.
    Bracket,
    /// The `#` symbol, which separates timeline stages.
    Hash,
    /// Any other symbol or operator.
    Symbol,
    Identifier,
    Number,
    Comment,
    Invalid,
}

/// A token: its class and the bytes of the file text it covers.
pub struct Token {
    pub typ: TokenType,
    pub range: Range<usize>,
}

impl Token {
    pub fn new(typ: TokenType, range: Range<usize>) -> (t: Self)
        ensures
            t.typ == typ,
            t.range == range,
    {
        Token { typ, range }
    }

    pub fn get_type(&self) -> (t: TokenType)
        ensures
            t == self.typ,
    {
        self.typ
    }

    pub fn get_range(&self) -> (r: Range<usize>)
        ensures
            r == self.range,
    {
        self.range.start..self.range.end
    }
}

/// A pair of token indices: the opening and the closing bracket of a block.
#[derive(Debug, Clone, Copy, PartialEq, Eq)]
pub struct Span(pub usize, pub usize);

/// The bracket structure of a token stream: plain tokens, and blocks that
/// hold the nodes between a pair of matching brackets.
pub enum TokenTreeNode {
    /// The index of a token outside any nested block.
    PlainToken(usize),
    /// The nodes inside a block, and the indices of its two brackets.
    Block(Vec<TokenTreeNode>, Span),
}

} // verus!
