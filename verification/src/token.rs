//! Tokens, token classes and the fault taxonomy shared by the scanner and the
//! parser.

use vstd::prelude::*;

verus! {

/// A lexical token produced by the scanner. `Digits` carries the parsed
/// integer of a digit run; `Id` carries the raw characters of an identifier
/// run (recognized by the scanner, but refused by the parser's tables).
#[derive(Debug, Clone, PartialEq, Eq)]
pub enum Token {
    LParen,
    RParen,
    Plus,
    Times,
    Digits(i32),
    Id(Vec<char>),
    Eof,
}

/// Mathematical image of a token: the digit value as an unbounded integer,
/// the identifier as a character sequence.
pub enum TokenV {
    LParen,
    RParen,
    Plus,
    Times,
    Digits(int),
    Id(Seq<char>),
    Eof,
}

impl View for Token {
    type V = TokenV;

    open spec fn view(&self) -> TokenV {
        match self {
            Token::LParen => TokenV::LParen,
            Token::RParen => TokenV::RParen,
            Token::Plus => TokenV::Plus,
            Token::Times => TokenV::Times,
            Token::Digits(n) => TokenV::Digits(*n as int),
            Token::Id(s) => TokenV::Id(s@),
            Token::Eof => TokenV::Eof,
        }
    }
}

/// The class of a token: what the parser's reduce and shift tables key on.
/// The scanner's classification table also names the kind of token it emits
/// by a value of this type.
#[derive(Debug, Clone, Copy, PartialEq, Eq, Structural)]
pub enum TokenClass {
    LParen,
    RParen,
    Plus,
    Times,
    Digits,
    Id,
    Eof,
}

/// The class a token belongs to.
pub open spec fn class_of(t: TokenV) -> TokenClass {
    match t {
        TokenV::LParen => TokenClass::LParen,
        TokenV::RParen => TokenClass::RParen,
        TokenV::Plus => TokenClass::Plus,
        TokenV::Times => TokenClass::Times,
        TokenV::Digits(_) => TokenClass::Digits,
        TokenV::Id(_) => TokenClass::Id,
        TokenV::Eof => TokenClass::Eof,
    }
}

impl Token {
    /// The class of this token.
    pub fn class(&self) -> (c: TokenClass)
        ensures
            c == class_of(self@),
    {
        match self {
            Token::LParen => TokenClass::LParen,
            Token::RParen => TokenClass::RParen,
            Token::Plus => TokenClass::Plus,
            Token::Times => TokenClass::Times,
            Token::Digits(_) => TokenClass::Digits,
            Token::Id(_) => TokenClass::Id,
            Token::Eof => TokenClass::Eof,
        }
    }
}

/// Why an evaluation stopped without producing a result. There is no
/// recovery: the system either returns exactly one integer or one of these.
#[derive(Debug, Clone, Copy, PartialEq, Eq, Structural)]
pub enum Fault {
    /// The token sequence does not fit the grammar: a (state, token) pair
    /// reached a gap in the parser's tables.
    Malformed,
    /// A digit literal or an intermediate value does not fit in `i32`.
    Overflow,
}

} // verus!
