use sqlrite::command::{parse_command, CliCommand};
use sqlrite::error::{CapacityError, Construct, LexError, ParseError, SqlError, TokenClass};
use sqlrite::sql::token::Token;
use sqlrite::sql::{parse_number, InsertStatement, Outcome, SelectStatement, Statement};
use sqlrite::storage::{Row, Table};

fn rows_of(statement: Statement) -> Vec<Row> {
    match statement {
        Statement::Insert(insert) => insert.rows,
        Statement::Select(_) => panic!("an INSERT was expected"),
    }
}

fn error_of<'a>(prepared: Result<Statement, SqlError<'a>>) -> SqlError<'a> {
    match prepared {
        Ok(_) => panic!("an error was expected"),
        Err(e) => e,
    }
}

#[test]
fn insert_is_accepted() {
    let statement = Statement::prepare("insert 1 \"cstack\" \"foo@bar.com\";").unwrap();
    assert_eq!(
        rows_of(statement),
        vec![Row::new(1, "cstack".to_string(), "foo@bar.com".to_string())]
    );
}

#[test]
fn insert_takes_either_quote_and_any_blanks() {
    let statement = Statement::prepare("  insert\t42 'it is' \"a 'b'\" ;  ").unwrap();
    assert_eq!(
        rows_of(statement),
        vec![Row::new(42, "it is".to_string(), "a 'b'".to_string())]
    );
}

#[test]
fn insert_without_email_is_rejected() {
    assert_eq!(
        error_of(Statement::prepare("insert 1 \"cstack\";")),
        SqlError::Parse(ParseError::UnexpectedToken {
            construct: Construct::Insert,
            expected: TokenClass::String,
            found: Token::Semicolon,
        })
    );
}

#[test]
fn insert_is_checked_place_by_place() {
    assert_eq!(
        error_of(Statement::prepare("insert")),
        SqlError::Parse(ParseError::UnexpectedToken {
            construct: Construct::Insert,
            expected: TokenClass::Number,
            found: Token::Eof,
        })
    );
    assert_eq!(
        error_of(Statement::prepare("insert 'one' 'a' 'b';")),
        SqlError::Parse(ParseError::UnexpectedToken {
            construct: Construct::Insert,
            expected: TokenClass::Number,
            found: Token::String("one"),
        })
    );
    assert_eq!(
        error_of(Statement::prepare("insert 1 name 'b';")),
        SqlError::Parse(ParseError::UnexpectedToken {
            construct: Construct::Insert,
            expected: TokenClass::String,
            found: Token::Identifier("name"),
        })
    );
    assert_eq!(
        error_of(Statement::prepare("insert 1 'a' 2;")),
        SqlError::Parse(ParseError::UnexpectedToken {
            construct: Construct::Insert,
            expected: TokenClass::String,
            found: Token::Number("2"),
        })
    );
    assert_eq!(
        error_of(Statement::prepare("insert 1 'a' 'b'")),
        SqlError::Parse(ParseError::UnexpectedToken {
            construct: Construct::Insert,
            expected: TokenClass::Semicolon,
            found: Token::Eof,
        })
    );
    assert_eq!(
        error_of(Statement::prepare("insert 1 'a' 'b' 'c';")),
        SqlError::Parse(ParseError::UnexpectedToken {
            construct: Construct::Insert,
            expected: TokenClass::Semicolon,
            found: Token::String("c"),
        })
    );
}

#[test]
fn empty_input_is_rejected() {
    assert_eq!(
        error_of(Statement::prepare("")),
        SqlError::Parse(ParseError::EmptyInput)
    );
    assert_eq!(
        error_of(Statement::prepare("  \t ")),
        SqlError::Parse(ParseError::EmptyInput)
    );
}

#[test]
fn unknown_leading_token_is_rejected() {
    assert_eq!(
        error_of(Statement::prepare("update x;")),
        SqlError::Parse(ParseError::UnrecognizedKeyword { found: Token::Identifier("update") })
    );
    assert_eq!(
        error_of(Statement::prepare("from x;")),
        SqlError::Parse(ParseError::UnrecognizedKeyword { found: Token::From })
    );
    assert_eq!(
        error_of(Statement::prepare("1 + 2")),
        SqlError::Parse(ParseError::UnrecognizedKeyword { found: Token::Number("1") })
    );
}

#[test]
fn select_is_not_implemented() {
    assert_eq!(
        error_of(Statement::prepare("select foo from my_table where 1 = 1;")),
        SqlError::Unimplemented
    );
}

#[test]
fn text_that_is_no_token_is_a_lex_error() {
    assert_eq!(
        error_of(Statement::prepare("insert 1 'a' #")),
        SqlError::Lex(LexError::UnexpectedChar { ch: '#', offset: 13 })
    );
    assert_eq!(
        error_of(Statement::prepare("insert 1 'a' 'b")),
        SqlError::Lex(LexError::UnterminatedString { delimiter: '\'', offset: 13 })
    );
    assert_eq!(
        error_of(Statement::prepare("?")),
        SqlError::Lex(LexError::UnexpectedChar { ch: '?', offset: 0 })
    );
}

#[test]
fn lex_error_is_met_as_far_as_the_lexer_reads_ahead() {
    // Reading the semicolon reads two tokens past it.
    assert_eq!(
        error_of(Statement::prepare("insert 1 'a' 'b'; x ?")),
        SqlError::Lex(LexError::UnexpectedChar { ch: '?', offset: 20 })
    );
    assert!(Statement::prepare("insert 1 'a' 'b'; x y ?").is_ok());
}

#[test]
fn id_that_is_no_u64_is_rejected() {
    let statement = Statement::prepare("insert 18446744073709551615 'a' 'b';").unwrap();
    assert_eq!(
        rows_of(statement),
        vec![Row::new(u64::MAX, "a".to_string(), "b".to_string())]
    );
    assert_eq!(
        error_of(Statement::prepare("insert 18446744073709551616 'a' 'b';")),
        SqlError::Parse(ParseError::IdOutOfRange { found: Token::Number("18446744073709551616") })
    );
}

#[test]
fn numbers() {
    assert_eq!(parse_number("0"), Some(0));
    assert_eq!(parse_number("007"), Some(7));
    assert_eq!(parse_number("1000"), Some(1000));
    assert_eq!(parse_number("18446744073709551615"), Some(u64::MAX));
    assert_eq!(parse_number("18446744073709551616"), None);
    assert_eq!(parse_number("99999999999999999999999"), None);
    assert_eq!(parse_number(""), None);
    assert_eq!(parse_number("12a"), None);
    assert_eq!(parse_number("+12"), None);
    assert_eq!(parse_number("١٢"), None);
}

#[test]
fn execute_writes_the_row_into_the_table() {
    let mut table = Table::new();
    let statement = Statement::prepare("insert 1 \"cstack\" \"foo@bar.com\";").unwrap();
    assert_eq!(statement.execute(&mut table), Ok(Outcome::Inserted { rows: 1 }));
    assert_eq!(table.num_rows(), 1);
    let statement = Statement::prepare("insert 2 'bob' 'bob@example.org';").unwrap();
    assert_eq!(statement.execute(&mut table), Ok(Outcome::Inserted { rows: 1 }));
    assert_eq!(table.num_rows(), 2);

    let (row, _) = Row::deserialize(table.row_slot(0).unwrap()).unwrap();
    assert_eq!(row, Row::new(1, "cstack".to_string(), "foo@bar.com".to_string()));
    let (row, _) = Row::deserialize(table.row_slot(1).unwrap()).unwrap();
    assert_eq!(row, Row::new(2, "bob".to_string(), "bob@example.org".to_string()));
}

#[test]
fn execute_stops_at_the_first_row_that_is_refused() {
    let mut table = Table::new();
    let statement = Statement::Insert(InsertStatement::new(vec![
        Row::new(1, "a".to_string(), "a@x".to_string()),
        Row::new(2, "b".repeat(40), "b@x".to_string()),
        Row::new(3, "c".to_string(), "c@x".to_string()),
    ]));
    assert_eq!(
        statement.execute(&mut table),
        Err(SqlError::Capacity(CapacityError::UsernameTooLong))
    );
    assert_eq!(table.num_rows(), 1);
    let (row, _) = Row::deserialize(table.row_slot(0).unwrap()).unwrap();
    assert_eq!(row, Row::new(1, "a".to_string(), "a@x".to_string()));
}

#[test]
fn execute_of_no_rows_inserts_none() {
    let mut table = Table::new();
    let statement = Statement::Insert(InsertStatement::new(vec![]));
    assert_eq!(statement.execute(&mut table), Ok(Outcome::Inserted { rows: 0 }));
    assert_eq!(table.num_rows(), 0);
}

#[test]
fn execute_of_select_is_not_implemented() {
    let mut table = Table::new();
    let statement = Statement::Select(SelectStatement::new(vec!["foo".to_string()]));
    assert_eq!(statement.execute(&mut table), Err(SqlError::Unimplemented));
    assert_eq!(table.num_rows(), 0);
}

#[test]
fn commands() {
    assert_eq!(parse_command(".exit"), Some(CliCommand::Exit));
    assert_eq!(parse_command(".quit"), None);
    assert_eq!(parse_command(".exit "), None);
    assert_eq!(parse_command("exit"), None);
    assert_eq!(parse_command(""), None);
}
