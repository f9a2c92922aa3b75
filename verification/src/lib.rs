//! A small SQL front end over a paged table of rows.
//!
//! Text is cut into tokens by [`sql::lexer`], tokens are read as a
//! [`sql::Statement`], and a statement is carried out on a
//! [`storage::Table`], which keeps each row in a slot of fixed size on one
//! of its pages.  The table lives in memory only.

#![allow(unused_imports)]

pub mod command;
pub mod error;
pub mod sql;
pub mod storage;
pub mod text;
