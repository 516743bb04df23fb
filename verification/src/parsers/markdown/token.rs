//! Tokens of the markdown dialect.

use vstd::prelude::*;

verus! {

/// The kind of a token.
///
/// `RBracket` is the opening bracket `[` and `LBracket` the closing bracket
/// `]`; likewise `RParen` is `(` and `LParen` is `)`.
#[derive(PartialEq, Eq, Clone, Copy, Debug, Structural)]
pub enum TokenType {
    EOF,
    Unknown,
    Heading,
    Letter,
    LineBreak,
    OrderedItem,
    Item,
    LParen,
    RParen,
    RBracket,
    LBracket,
    Bang,
}

/// A token: its kind and the text it stands for.
#[derive(Debug)]
pub struct Token {
    pub token_type: TokenType,
    pub literal: String,
}

impl TokenType {
    /// The printed name of the kind.
    pub open spec fn name(self) -> Seq<char> {
        match self {
            TokenType::EOF => "TokenType::EOF"@,
            TokenType::Unknown => "TokenType::Unknown"@,
            TokenType::Heading => "TokenType::Heading"@,
            TokenType::Letter => "TokenType::Letter"@,
            TokenType::LineBreak => "TokenType::LineBreak"@,
            TokenType::OrderedItem => "TokenType::OrderedItem"@,
            TokenType::Item => "TokenType::Item"@,
            TokenType::LParen => "TokenType::LParen"@,
            TokenType::RParen => "TokenType::RParen"@,
            TokenType::RBracket => "TokenType::RBracket"@,
            TokenType::LBracket => "TokenType::LBracket"@,
            TokenType::Bang => "TokenType::Bang"@,
        }
    }

    /// The printed name of the kind, as text.
    pub fn to_string(&self) -> (s: String)
        ensures
            s@ == self.name(),
    {
        let name: &str = match self {
            TokenType::EOF => "TokenType::EOF",
            TokenType::Unknown => "TokenType::Unknown",
            TokenType::Heading => "TokenType::Heading",
            TokenType::Letter => "TokenType::Letter",
            TokenType::LineBreak => "TokenType::LineBreak",
            TokenType::OrderedItem => "TokenType::OrderedItem",
            TokenType::Item => "TokenType::Item",
            TokenType::LParen => "TokenType::LParen",
            TokenType::RParen => "TokenType::RParen",
            TokenType::RBracket => "TokenType::RBracket",
            TokenType::LBracket => "TokenType::LBracket",
            TokenType::Bang => "TokenType::Bang",
        };
        name.to_owned()
    }
}

impl Token {
    /// The printed form of a token: the kind's name, a space, and the
    /// literal between single quotes.
    pub open spec fn printed(self) -> Seq<char> {
        self.token_type.name() + " '"@ + self.literal@ + "'"@
    }

    /// The printed form of the token, as text.
    pub fn to_string(&self) -> (s: String)
        ensures
            s@ == self.printed(),
    {
        let mut s = self.token_type.to_string();
        s.append(" '");
        s.append(self.literal.as_str());
        s.append("'");
        s
    }

    /// A token of the given kind and literal.
    pub fn new(token_type: TokenType, literal: String) -> (token: Token)
        ensures
            token.token_type == token_type,
            token.literal == literal,
    {
        Token { token_type, literal }
    }
}

} // verus!
