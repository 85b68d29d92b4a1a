//! Lexical tokens.
use crate::rat::Number;
use vstd::prelude::*;

verus! {

/// One lexical unit of source text. `SomeKw` is the keyword `some`.
/// The derived `PartialEq` serves callers outside the library; verified
/// code compares tokens through their views.
#[derive(Debug, PartialEq)]
pub enum Token {
    LeftParen,
    RightParen,
    LeftBrace,
    RightBrace,
    Comma,
    Dot,
    Minus,
    Plus,
    Semicolon,
    Slash,
    Star,
    Percent,
    Equal,
    BangEqual,
    EqualEqual,
    Greater,
    GreaterEqual,
    Less,
    LessEqual,
    Tilde,
    TildeEqual,
    Identifier(String),
    StringLiteral(String),
    Number(Number),
    And,
    Or,
    If,
    Else,
    True,
    False,
    Nil,
    Let,
    Const,
    Func,
    Return,
    For,
    While,
    Print,
    Pub,
    Sym,
    Module,
    Import,
    SomeKw,
    Not,
    Comment(String),
    Error(String),
    EOF,
}

/// The mathematical image of a token: text as a sequence of characters.
pub enum TokenView {
    LeftParen,
    RightParen,
    LeftBrace,
    RightBrace,
    Comma,
    Dot,
    Minus,
    Plus,
    Semicolon,
    Slash,
    Star,
    Percent,
    Equal,
    BangEqual,
    EqualEqual,
    Greater,
    GreaterEqual,
    Less,
    LessEqual,
    Tilde,
    TildeEqual,
    Identifier(Seq<char>),
    StringLiteral(Seq<char>),
    Number(Number),
    And,
    Or,
    If,
    Else,
    True,
    False,
    Nil,
    Let,
    Const,
    Func,
    Return,
    For,
    While,
    Print,
    Pub,
    Sym,
    Module,
    Import,
    SomeKw,
    Not,
    Comment(Seq<char>),
    Error(Seq<char>),
    EOF,
}

impl View for Token {
    type V = TokenView;

    open spec fn view(&self) -> TokenView {
        match self {
            Token::LeftParen => TokenView::LeftParen,
            Token::RightParen => TokenView::RightParen,
            Token::LeftBrace => TokenView::LeftBrace,
            Token::RightBrace => TokenView::RightBrace,
            Token::Comma => TokenView::Comma,
            Token::Dot => TokenView::Dot,
            Token::Minus => TokenView::Minus,
            Token::Plus => TokenView::Plus,
            Token::Semicolon => TokenView::Semicolon,
            Token::Slash => TokenView::Slash,
            Token::Star => TokenView::Star,
            Token::Percent => TokenView::Percent,
            Token::Equal => TokenView::Equal,
            Token::BangEqual => TokenView::BangEqual,
            Token::EqualEqual => TokenView::EqualEqual,
            Token::Greater => TokenView::Greater,
            Token::GreaterEqual => TokenView::GreaterEqual,
            Token::Less => TokenView::Less,
            Token::LessEqual => TokenView::LessEqual,
            Token::Tilde => TokenView::Tilde,
            Token::TildeEqual => TokenView::TildeEqual,
            Token::Identifier(s) => TokenView::Identifier(s@),
            Token::StringLiteral(s) => TokenView::StringLiteral(s@),
            Token::Number(n) => TokenView::Number(*n),
            Token::And => TokenView::And,
            Token::Or => TokenView::Or,
            Token::If => TokenView::If,
            Token::Else => TokenView::Else,
            Token::True => TokenView::True,
            Token::False => TokenView::False,
            Token::Nil => TokenView::Nil,
            Token::Let => TokenView::Let,
            Token::Const => TokenView::Const,
            Token::Func => TokenView::Func,
            Token::Return => TokenView::Return,
            Token::For => TokenView::For,
            Token::While => TokenView::While,
            Token::Print => TokenView::Print,
            Token::Pub => TokenView::Pub,
            Token::Sym => TokenView::Sym,
            Token::Module => TokenView::Module,
            Token::Import => TokenView::Import,
            Token::SomeKw => TokenView::SomeKw,
            Token::Not => TokenView::Not,
            Token::Comment(s) => TokenView::Comment(s@),
            Token::Error(s) => TokenView::Error(s@),
            Token::EOF => TokenView::EOF,
        }
    }
}

/// The views of a sequence of tokens.
pub open spec fn toks_view(ts: Seq<Token>) -> Seq<TokenView> {
    ts.map_values(|t: Token| t@)
}

} // verus!
