//! Tokens produced by the scanner, and the binding powers that drive the
//! Pratt parser.

use vstd::prelude::*;
use vstd::string::*;
use crate::compiler::scanner::Scanner;

verus! {

/// A lexical token. `start` holds the source from the token's first byte to the
/// end of the source (for an error token: the message), of which the first
/// `length` bytes are the token's text.
#[derive(Debug, Copy, Clone)]
pub struct Token<'a> {
    pub token_type: TokenType,
    pub start: &'a [u8],
    pub length: usize,
    pub line: i32,
}

impl<'a> Token<'a> {
    /// The token's text.
    pub open spec fn lexeme(self) -> Seq<u8> {
        self.start@.subrange(0, self.length as int)
    }

    fn new(token_type: TokenType, start: &'a [u8], length: usize, line: i32) -> (t: Self)
        ensures
            t.token_type == token_type,
            t.start == start,
            t.length == length,
            t.line == line,
    {
        Self { token_type, start, length, line }
    }

    /// The token of type `t` that spans the scanner's current lexeme,
    /// `source[start..current]`.
    pub fn make_token(sc: &Scanner<'a>, t: TokenType) -> (tok: Self)
        requires
            sc.start <= sc.current <= sc.source@.len(),
        ensures
            tok.token_type == t,
            tok.start@ == sc.source@.subrange(sc.start as int, sc.source@.len() as int),
            tok.length == sc.current - sc.start,
            tok.line == sc.line,
    {
        Self::new(t, &sc.source[sc.start..sc.source.len()], sc.current - sc.start, sc.line)
    }

    /// An error token whose text is the message `msg`.
    pub fn error(msg: &'a str, line: i32) -> (tok: Token<'a>)
        ensures
            tok.token_type == TokenType::Error,
            tok.start@ == msg.spec_bytes(),
            tok.length == msg.spec_bytes().len(),
            tok.line == line,
    {
        let bytes: &'a [u8] = msg.as_bytes();
        Token::new(TokenType::Error, bytes, bytes.len(), line)
    }

    /// The end-of-file token with empty text on line 0, which the parser
    /// holds before the first token is read.
    pub fn default() -> (tok: Self)
        ensures
            tok.token_type == TokenType::Eof,
            tok.start@.len() == 0,
            tok.length == 0,
            tok.line == 0,
    {
        let empty: &'a [u8] = &[];
        Self::new(TokenType::Eof, empty, 0, 0)
    }
}

/// The kinds of token.
#[derive(Debug, PartialEq, Eq, Structural, Clone, Copy)]
pub enum TokenType {
    // Single-character tokens.
    LeftParen,
    RightParen,
    LeftBrace,
    RightBrace,
    Comma,
    Dot,
    Minus,
    Plus,
    Semicolon,
    Slash,
    Star,
    // One or two character tokens.
    Bang,
    BangEqual,
    Equal,
    EqualEqual,
    Greater,
    GreaterEqual,
    Less,
    LessEqual,
    // Literals.
    Identifier,
    String,
    Number,
    // Keywords.
    And,
    Class,
    Else,
    False,
    For,
    Fun,
    If,
    Nil,
    Or,
    Print,
    Return,
    Super,
    This,
    True,
    Var,
    While,
    Error,
    Eof,
}

/// The left and right binding powers of an infix operator; `(0, 0)` for a token
/// that is no infix operator.
pub open spec fn infix_power(token_type: TokenType) -> (u8, u8) {
    match token_type {
        TokenType::EqualEqual | TokenType::BangEqual => (4, 5),
        TokenType::Less | TokenType::LessEqual | TokenType::Greater | TokenType::GreaterEqual => (5, 6),
        TokenType::Plus | TokenType::Minus => (6, 7),
        TokenType::Star | TokenType::Slash => (7, 8),
        _ => (0, 0),
    }
}

/// The binding power of a prefix operator's operand; 0 for a token that is no
/// prefix operator.
pub open spec fn prefix_power(token_type: TokenType) -> u8 {
    match token_type {
        TokenType::Minus | TokenType::Bang => 8,
        _ => 0,
    }
}

/// The left and right binding powers of `token_type` as an infix operator.
pub fn infix_binding_power(token_type: TokenType) -> (r: (u8, u8))
    ensures
        r == infix_power(token_type),
{
    match token_type {
        TokenType::EqualEqual | TokenType::BangEqual => (4, 5),
        TokenType::Less | TokenType::LessEqual | TokenType::Greater | TokenType::GreaterEqual => {
            (5, 6)
        },
        TokenType::Plus | TokenType::Minus => (6, 7),
        TokenType::Star | TokenType::Slash => (7, 8),
        _ => (0, 0),
    }
}

/// The binding power of the operand of `token_type` as a prefix operator.
pub fn prefix_binding_power(token_type: TokenType) -> (r: u8)
    ensures
        r == prefix_power(token_type),
{
    match token_type {
        TokenType::Minus => 8,
        TokenType::Bang => 8,
        _ => 0,
    }
}

/// Every infix operator binds its right operand tighter than its left, so that
/// operators of one level associate to the left; and a prefix operator binds
/// tighter than every infix operator.
pub proof fn binding_powers_are_left_associative(t: TokenType)
    ensures
        infix_power(t).0 != 0 ==> infix_power(t).1 == infix_power(t).0 + 1,
        infix_power(t).0 == 0 <==> infix_power(t).1 == 0,
        prefix_power(t) != 0 ==> forall|u: TokenType| infix_power(u).0 <= prefix_power(t),
{
    assert forall|u: TokenType| infix_power(u).0 <= 8 by {}
}

} // verus!
