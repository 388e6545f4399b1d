//! Tokens: a kind and a byte range into the source they were read from.
use vstd::prelude::*;

verus! {

/// A byte offset into some source text.
#[derive(Clone, Copy, Debug, PartialEq, Eq, Hash, PartialOrd, Ord, Structural)]
pub struct Point(pub usize);

/// The kinds of token of the language.
#[derive(Clone, Copy, Debug, PartialEq, Eq, Hash, Structural)]
pub enum TokenType {
    Ident,
    Punc,
    Key,
    Op,
    CoreType,
    ArithLit,
    StringLit,
    BoolLit,
}

/// A token: its kind and the byte range `[start, end)` of its lexeme in the
/// source it was read from. A token owns no text.
#[derive(Clone, Copy, Debug, PartialEq, Eq, Hash, Structural)]
pub struct Token {
    pub start: Point,
    pub end: Point,
    pub token_type: TokenType,
}

/// The token of kind `k` that spans the bytes `[start, end)`.
pub open spec fn token_of(k: TokenType, start: usize, end: usize) -> Token {
    Token { start: Point(start), end: Point(end), token_type: k }
}

/// The name under which a kind of token appears in diagnostics.
pub open spec fn kind_name(k: TokenType) -> Seq<char> {
    match k {
        TokenType::Ident => "Ident"@,
        TokenType::Punc => "Punc"@,
        TokenType::Key => "Key"@,
        TokenType::Op => "Op"@,
        TokenType::CoreType => "CoreType"@,
        TokenType::ArithLit => "ArithLit"@,
        TokenType::StringLit => "StringLit"@,
        TokenType::BoolLit => "BoolLit"@,
    }
}

impl TokenType {
    /// The name of this kind in diagnostics.
    pub fn name(&self) -> (r: &'static str)
        ensures
            r@ == kind_name(*self),
    {
        match self {
            TokenType::Ident => "Ident",
            TokenType::Punc => "Punc",
            TokenType::Key => "Key",
            TokenType::Op => "Op",
            TokenType::CoreType => "CoreType",
            TokenType::ArithLit => "ArithLit",
            TokenType::StringLit => "StringLit",
            TokenType::BoolLit => "BoolLit",
        }
    }
}

impl Token {
    pub fn new(token_type: TokenType, start: usize, end: usize) -> (r: Token)
        ensures
            r == token_of(token_type, start, end),
    {
        Token { start: Point(start), end: Point(end), token_type }
    }

    pub fn new_ident(start: usize, end: usize) -> (r: Token)
        ensures
            r == token_of(TokenType::Ident, start, end),
    {
        Token::new(TokenType::Ident, start, end)
    }

    pub fn new_punc(start: usize, end: usize) -> (r: Token)
        ensures
            r == token_of(TokenType::Punc, start, end),
    {
        Token::new(TokenType::Punc, start, end)
    }

    pub fn new_key(start: usize, end: usize) -> (r: Token)
        ensures
            r == token_of(TokenType::Key, start, end),
    {
        Token::new(TokenType::Key, start, end)
    }

    pub fn new_op(start: usize, end: usize) -> (r: Token)
        ensures
            r == token_of(TokenType::Op, start, end),
    {
        Token::new(TokenType::Op, start, end)
    }

    pub fn new_core_type(start: usize, end: usize) -> (r: Token)
        ensures
            r == token_of(TokenType::CoreType, start, end),
    {
        Token::new(TokenType::CoreType, start, end)
    }

    /// A numeric literal.
    pub fn new_arith_lit(start: usize, end: usize) -> (r: Token)
        ensures
            r == token_of(TokenType::ArithLit, start, end),
    {
        Token::new(TokenType::ArithLit, start, end)
    }

    pub fn new_string_lit(start: usize, end: usize) -> (r: Token)
        ensures
            r == token_of(TokenType::StringLit, start, end),
    {
        Token::new(TokenType::StringLit, start, end)
    }

    pub fn new_bool_lit(start: usize, end: usize) -> (r: Token)
        ensures
            r == token_of(TokenType::BoolLit, start, end),
    {
        Token::new(TokenType::BoolLit, start, end)
    }

    pub fn start(&self) -> (r: usize)
        ensures
            r == self.start.0,
    {
        self.start.0
    }

    pub fn end(&self) -> (r: usize)
        ensures
            r == self.end.0,
    {
        self.end.0
    }

    pub fn token_type(&self) -> (r: TokenType)
        ensures
            r == self.token_type,
    {
        self.token_type
    }
}

} // verus!
