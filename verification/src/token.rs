//! Tokens: the lexical units of the language, and the lexical error.

use vstd::prelude::*;
use vstd::string::*;
use crate::text::{decimal, format_i64, push_char, push_decimal, signed_decimal};

verus! {

/// What a token is.
#[derive(Debug, PartialEq)]
pub enum TokenType {
    Number(i64),
    Ident(String),
    Assign,
    Plus,
    Minus,
    Star,
    Slash,
    Eq,
    NotEq,
    Gt,
    Lt,
    GtEq,
    LtEq,
    EOF,
}

/// A token: its kind, the text it was read from, and the line of its first
/// character (lines count from 1).
#[derive(Debug, PartialEq)]
pub struct Token {
    pub token_type: TokenType,
    pub literal: String,
    pub line: usize,
}

/// A character that starts no token, with the line it stands on.
///
/// A number literal too large for an `i64` is reported by its first digit.
#[derive(Debug, Clone, Copy, PartialEq, Eq, Structural)]
pub struct LexError {
    pub character: char,
    pub line: usize,
}

/// The mathematical value of a [`TokenType`].
pub enum TokenKind {
    Number(i64),
    Ident(Seq<char>),
    Assign,
    Plus,
    Minus,
    Star,
    Slash,
    Eq,
    NotEq,
    Gt,
    Lt,
    GtEq,
    LtEq,
    EOF,
}

/// The mathematical value of a [`Token`].
pub struct TokenView {
    pub kind: TokenKind,
    pub literal: Seq<char>,
    pub line: usize,
}

impl View for TokenType {
    type V = TokenKind;

    open spec fn view(&self) -> TokenKind {
        match self {
            TokenType::Number(value) => TokenKind::Number(*value),
            TokenType::Ident(name) => TokenKind::Ident(name@),
            TokenType::Assign => TokenKind::Assign,
            TokenType::Plus => TokenKind::Plus,
            TokenType::Minus => TokenKind::Minus,
            TokenType::Star => TokenKind::Star,
            TokenType::Slash => TokenKind::Slash,
            TokenType::Eq => TokenKind::Eq,
            TokenType::NotEq => TokenKind::NotEq,
            TokenType::Gt => TokenKind::Gt,
            TokenType::Lt => TokenKind::Lt,
            TokenType::GtEq => TokenKind::GtEq,
            TokenType::LtEq => TokenKind::LtEq,
            TokenType::EOF => TokenKind::EOF,
        }
    }
}

impl View for Token {
    type V = TokenView;

    open spec fn view(&self) -> TokenView {
        TokenView { kind: self.token_type@, literal: self.literal@, line: self.line }
    }
}

impl Clone for TokenType {
    fn clone(&self) -> (res: TokenType)
        ensures
            res@ == self@,
    {
        match self {
            TokenType::Number(value) => TokenType::Number(*value),
            TokenType::Ident(name) => TokenType::Ident(name.clone()),
            TokenType::Assign => TokenType::Assign,
            TokenType::Plus => TokenType::Plus,
            TokenType::Minus => TokenType::Minus,
            TokenType::Star => TokenType::Star,
            TokenType::Slash => TokenType::Slash,
            TokenType::Eq => TokenType::Eq,
            TokenType::NotEq => TokenType::NotEq,
            TokenType::Gt => TokenType::Gt,
            TokenType::Lt => TokenType::Lt,
            TokenType::GtEq => TokenType::GtEq,
            TokenType::LtEq => TokenType::LtEq,
            TokenType::EOF => TokenType::EOF,
        }
    }
}

impl Clone for Token {
    fn clone(&self) -> (res: Token)
        ensures
            res@ == self@,
    {
        Token {
            token_type: self.token_type.clone(),
            literal: self.literal.clone(),
            line: self.line,
        }
    }
}

/// How a token of `kind` is written in an error message: a number by its
/// numeral, an identifier by its name, an operator by its sign.
pub open spec fn kind_text(kind: TokenKind) -> Seq<char> {
    match kind {
        TokenKind::Number(value) => signed_decimal(value as int),
        TokenKind::Ident(name) => name,
        TokenKind::Assign => "="@,
        TokenKind::Plus => "+"@,
        TokenKind::Minus => "-"@,
        TokenKind::Star => "*"@,
        TokenKind::Slash => "/"@,
        TokenKind::Eq => "=="@,
        TokenKind::NotEq => "!="@,
        TokenKind::Gt => ">"@,
        TokenKind::Lt => "<"@,
        TokenKind::GtEq => ">="@,
        TokenKind::LtEq => "<="@,
        TokenKind::EOF => "end of input"@,
    }
}

impl TokenType {
    /// The token as it is written in an error message.
    pub fn text(&self) -> (text: String)
        ensures
            text@ == kind_text(self@),
    {
        match self {
            TokenType::Number(value) => format_i64(*value),
            TokenType::Ident(name) => name.clone(),
            TokenType::Assign => String::from_str("="),
            TokenType::Plus => String::from_str("+"),
            TokenType::Minus => String::from_str("-"),
            TokenType::Star => String::from_str("*"),
            TokenType::Slash => String::from_str("/"),
            TokenType::Eq => String::from_str("=="),
            TokenType::NotEq => String::from_str("!="),
            TokenType::Gt => String::from_str(">"),
            TokenType::Lt => String::from_str("<"),
            TokenType::GtEq => String::from_str(">="),
            TokenType::LtEq => String::from_str("<="),
            TokenType::EOF => String::from_str("end of input"),
        }
    }
}

/// The text of a lexical error.
pub open spec fn lex_message(error: LexError) -> Seq<char> {
    "Unexpected character '"@ + seq![error.character] + "' at line "@ + decimal(
        error.line as nat,
    )
}

impl LexError {
    /// The error as one line of text.
    pub fn message(&self) -> (text: String)
        ensures
            text@ == lex_message(*self),
    {
        let mut text = String::from_str("Unexpected character '");
        push_char(&mut text, self.character);
        text.append("' at line ");
        push_decimal(&mut text, self.line as u64);
        text
    }
}

/// The views of a vector of tokens, in order.
pub open spec fn token_views(tokens: Seq<Token>) -> Seq<TokenView> {
    tokens.map_values(|t: Token| t@)
}

} // verus!
