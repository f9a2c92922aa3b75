//! The errors the library reports.

use crate::sql::token::{Token, TokenView};
use vstd::prelude::*;

verus! {

/// Text that is not made of tokens.
#[derive(Clone, Copy, Debug, PartialEq, Eq)]
pub enum LexError {
    /// A character that starts no token, and its byte offset in the input.
    UnexpectedChar { ch: char, offset: usize },
    /// A string literal whose closing quote is missing; the offset is that
    /// of the opening quote.
    UnterminatedString { delimiter: char, offset: usize },
}

/// A field of a row.
#[derive(Clone, Copy, Debug, PartialEq, Eq)]
pub enum Field {
    Id,
    Username,
    Email,
}

/// Something that does not fit where it should go.
#[derive(Clone, Copy, Debug, PartialEq, Eq)]
pub enum CapacityError {
    /// The username takes more bytes than its column holds.
    UsernameTooLong,
    /// The email takes more bytes than its column holds.
    EmailTooLong,
    /// The buffer to write a row into is shorter than a row.
    DestinationTooSmall,
    /// The row number lies beyond the last page of the table.
    TableFull,
}

/// Bytes that are not an encoded row.
#[derive(Clone, Copy, Debug, PartialEq, Eq)]
pub enum CodecError {
    /// The buffer is shorter than a row.
    Truncated,
    /// The length in front of a field is not the fixed size of that field.
    BadLengthPrefix { field: Field },
    /// The bytes of a text field are not UTF-8.
    InvalidText { field: Field },
}

/// A class of tokens that a statement asks for at some place.
#[derive(Clone, Copy, Debug, PartialEq, Eq)]
pub enum TokenClass {
    Number,
    String,
    Semicolon,
}

impl TokenClass {
    /// Whether `token` belongs to the class.
    pub open spec fn admits(self, token: TokenView) -> bool {
        match self {
            TokenClass::Number => token is Number,
            TokenClass::String => token is String,
            TokenClass::Semicolon => token is Semicolon,
        }
    }

    /// Whether `token` belongs to the class.
    pub fn test(&self, token: &Token) -> (admitted: bool)
        ensures
            admitted == self.admits(token@),
    {
        match (self, token) {
            (TokenClass::Number, Token::Number(_)) => true,
            (TokenClass::String, Token::String(_)) => true,
            (TokenClass::Semicolon, Token::Semicolon) => true,
            _ => false,
        }
    }
}

/// A kind of statement.
#[derive(Clone, Copy, Debug, PartialEq, Eq)]
pub enum Construct {
    Insert,
}

/// Tokens that are not a statement.
#[derive(Clone, Copy, Debug, PartialEq, Eq)]
pub enum ParseError<'a> {
    /// There is no token at all.
    EmptyInput,
    /// The first token begins no statement.
    UnrecognizedKeyword { found: Token<'a> },
    /// While `construct` was read, a token of the class `expected` was due
    /// and `found` stood there; at the end of the input `found` is `Eof`.
    UnexpectedToken { construct: Construct, expected: TokenClass, found: Token<'a> },
    /// The number `found` is too large to be an id.
    IdOutOfRange { found: Token<'a> },
}

/// A parse error with its tokens as views.
pub enum ParseErrorView {
    EmptyInput,
    UnrecognizedKeyword { found: TokenView },
    UnexpectedToken { construct: Construct, expected: TokenClass, found: TokenView },
    IdOutOfRange { found: TokenView },
}

impl<'a> View for ParseError<'a> {
    type V = ParseErrorView;

    open spec fn view(&self) -> ParseErrorView {
        match *self {
            ParseError::EmptyInput => ParseErrorView::EmptyInput,
            ParseError::UnrecognizedKeyword { found } => ParseErrorView::UnrecognizedKeyword {
                found: found@,
            },
            ParseError::UnexpectedToken {
                construct,
                expected,
                found,
            } => ParseErrorView::UnexpectedToken { construct, expected, found: found@ },
            ParseError::IdOutOfRange { found } => ParseErrorView::IdOutOfRange { found: found@ },
        }
    }
}

/// Why a text is no statement, or why a statement cannot be carried out.
#[derive(Clone, Copy, Debug, PartialEq, Eq)]
pub enum SqlError<'a> {
    Lex(LexError),
    Parse(ParseError<'a>),
    Capacity(CapacityError),
    /// The statement is of a kind that is not carried out yet.
    Unimplemented,
}

/// An error with its tokens as views.
pub enum SqlErrorView {
    Lex(LexError),
    Parse(ParseErrorView),
    Capacity(CapacityError),
    Unimplemented,
}

impl<'a> View for SqlError<'a> {
    type V = SqlErrorView;

    open spec fn view(&self) -> SqlErrorView {
        match *self {
            SqlError::Lex(e) => SqlErrorView::Lex(e),
            SqlError::Parse(e) => SqlErrorView::Parse(e@),
            SqlError::Capacity(e) => SqlErrorView::Capacity(e),
            SqlError::Unimplemented => SqlErrorView::Unimplemented,
        }
    }
}

} // verus!
