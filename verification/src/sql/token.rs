//! The lexical units of the SQL dialect.

use vstd::prelude::*;

verus! {

/// One lexical unit.  Literals and identifiers borrow their text from the
/// input they were read from.
#[derive(Clone, Copy, Debug, PartialEq, Eq)]
pub enum Token<'a> {
    /// Placeholder that fills the lookahead window before anything is read.
    Error,
    Comma,
    Semicolon,
    Equal,
    Plus,
    Minus,
    Select,
    Insert,
    As,
    From,
    Where,
    /// A run of decimal digits.
    Number(&'a str),
    /// The text between two matching quotes.
    String(&'a str),
    /// A word that is not a keyword.
    Identifier(&'a str),
    /// The end of the input.
    Eof,
}

/// A token with its text as a sequence of characters.
pub enum TokenView {
    Error,
    Comma,
    Semicolon,
    Equal,
    Plus,
    Minus,
    Select,
    Insert,
    As,
    From,
    Where,
    Number(Seq<char>),
    String(Seq<char>),
    Identifier(Seq<char>),
    Eof,
}

impl TokenView {
    /// Whether the token carries text.
    pub open spec fn has_text(self) -> bool {
        self is Number || self is String || self is Identifier
    }

    /// The text of a literal or an identifier.
    pub open spec fn text(self) -> Seq<char> {
        match self {
            TokenView::Number(t) => t,
            TokenView::String(t) => t,
            TokenView::Identifier(t) => t,
            _ => Seq::empty(),
        }
    }
}

impl<'a> View for Token<'a> {
    type V = TokenView;

    open spec fn view(&self) -> TokenView {
        match *self {
            Token::Error => TokenView::Error,
            Token::Comma => TokenView::Comma,
            Token::Semicolon => TokenView::Semicolon,
            Token::Equal => TokenView::Equal,
            Token::Plus => TokenView::Plus,
            Token::Minus => TokenView::Minus,
            Token::Select => TokenView::Select,
            Token::Insert => TokenView::Insert,
            Token::As => TokenView::As,
            Token::From => TokenView::From,
            Token::Where => TokenView::Where,
            Token::Number(t) => TokenView::Number(t@),
            Token::String(t) => TokenView::String(t@),
            Token::Identifier(t) => TokenView::Identifier(t@),
            Token::Eof => TokenView::Eof,
        }
    }
}

impl<'a> Token<'a> {
    /// The text of a literal or an identifier.  Other tokens have none, so
    /// they are not accepted.
    pub fn into_str(self) -> (text: &'a str)
        requires
            self@.has_text(),
        ensures
            text@ == self@.text(),
    {
        match self {
            Token::String(value) => value,
            Token::Identifier(value) => value,
            Token::Number(value) => value,
            _ => "",
        }
    }
}

} // verus!
