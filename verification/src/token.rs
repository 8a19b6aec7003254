//! The token model: the closed set of lexical categories and the carrier
//! record `{kind, lexeme, line}` that the scanner emits.

use vstd::prelude::*;

verus! {

/// The closed set of lexical categories.
///
/// Literal-bearing variants carry their payload as the raw bytes of the
/// matched text: an identifier carries its own text, a string literal carries
/// the content with the surrounding quotes stripped, and a number carries the
/// full matched numeric text (turning that text into a machine float is left
/// to callers, since this crate's verified code does not use floating point).
#[derive(Debug)]
pub enum TokenType {
    // single-character tokens
    LeftParen,
    RightParen,
    LeftBrace,
    RightBrace,
    Comma,
    Dot,
    Minus,
    Plus,
    Semicolon,
    Slash,
    Star,
    // one or two character tokens
    Bang,
    BangEqual,
    Equal,
    EqualEqual,
    Greater,
    GreaterEqual,
    Less,
    LessEqual,
    // literals
    Identifier(Vec<u8>),
    StringLit(Vec<u8>),
    Number(Vec<u8>),
    // keywords
    And,
    Class,
    Else,
    False,
    Fun,
    For,
    If,
    Nil,
    Or,
    Print,
    Return,
    Super,
    This,
    True,
    Var,
    While,
    // end-of-input sentinel
    Eof,
}

/// The mathematical model of a `TokenType`: the same categories, with each
/// payload abstracted to the sequence of bytes it holds.
pub ghost enum SpecTokenType {
    LeftParen,
    RightParen,
    LeftBrace,
    RightBrace,
    Comma,
    Dot,
    Minus,
    Plus,
    Semicolon,
    Slash,
    Star,
    Bang,
    BangEqual,
    Equal,
    EqualEqual,
    Greater,
    GreaterEqual,
    Less,
    LessEqual,
    Identifier(Seq<u8>),
    StringLit(Seq<u8>),
    Number(Seq<u8>),
    And,
    Class,
    Else,
    False,
    Fun,
    For,
    If,
    Nil,
    Or,
    Print,
    Return,
    Super,
    This,
    True,
    Var,
    While,
    Eof,
}

impl View for TokenType {
    type V = SpecTokenType;

    open spec fn view(&self) -> SpecTokenType {
        match self {
            TokenType::LeftParen => SpecTokenType::LeftParen,
            TokenType::RightParen => SpecTokenType::RightParen,
            TokenType::LeftBrace => SpecTokenType::LeftBrace,
            TokenType::RightBrace => SpecTokenType::RightBrace,
            TokenType::Comma => SpecTokenType::Comma,
            TokenType::Dot => SpecTokenType::Dot,
            TokenType::Minus => SpecTokenType::Minus,
            TokenType::Plus => SpecTokenType::Plus,
            TokenType::Semicolon => SpecTokenType::Semicolon,
            TokenType::Slash => SpecTokenType::Slash,
            TokenType::Star => SpecTokenType::Star,
            TokenType::Bang => SpecTokenType::Bang,
            TokenType::BangEqual => SpecTokenType::BangEqual,
            TokenType::Equal => SpecTokenType::Equal,
            TokenType::EqualEqual => SpecTokenType::EqualEqual,
            TokenType::Greater => SpecTokenType::Greater,
            TokenType::GreaterEqual => SpecTokenType::GreaterEqual,
            TokenType::Less => SpecTokenType::Less,
            TokenType::LessEqual => SpecTokenType::LessEqual,
            TokenType::Identifier(text) => SpecTokenType::Identifier(text@),
            TokenType::StringLit(content) => SpecTokenType::StringLit(content@),
            TokenType::Number(text) => SpecTokenType::Number(text@),
            TokenType::And => SpecTokenType::And,
            TokenType::Class => SpecTokenType::Class,
            TokenType::Else => SpecTokenType::Else,
            TokenType::False => SpecTokenType::False,
            TokenType::Fun => SpecTokenType::Fun,
            TokenType::For => SpecTokenType::For,
            TokenType::If => SpecTokenType::If,
            TokenType::Nil => SpecTokenType::Nil,
            TokenType::Or => SpecTokenType::Or,
            TokenType::Print => SpecTokenType::Print,
            TokenType::Return => SpecTokenType::Return,
            TokenType::Super => SpecTokenType::Super,
            TokenType::This => SpecTokenType::This,
            TokenType::True => SpecTokenType::True,
            TokenType::Var => SpecTokenType::Var,
            TokenType::While => SpecTokenType::While,
            TokenType::Eof => SpecTokenType::Eof,
        }
    }
}

/// One classified, line-stamped unit of lexical output.
///
/// `lexeme` is the exact substring of the source that produced the token
/// (empty for the end-of-input sentinel), and `line` is the 1-based line
/// number in effect when the token was finalized.
#[derive(Debug)]
pub struct Token {
    pub type_: TokenType,
    pub lexeme: Vec<u8>,
    pub line: usize,
}

/// The mathematical model of a `Token`.
pub ghost struct SpecToken {
    pub type_: SpecTokenType,
    pub lexeme: Seq<u8>,
    pub line: int,
}

impl View for Token {
    type V = SpecToken;

    open spec fn view(&self) -> SpecToken {
        SpecToken { type_: self.type_@, lexeme: self.lexeme@, line: self.line as int }
    }
}

impl Token {
    pub fn new(type_: TokenType, lexeme: Vec<u8>, line: usize) -> (t: Token)
        ensures
            t.type_ == type_,
            t.lexeme == lexeme,
            t.line == line,
    {
        Token { type_, lexeme, line }
    }
}

} // verus!
