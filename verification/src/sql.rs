//! Statements of the SQL dialect: what they are, how text becomes a
//! statement, and how a statement is carried out on a table.
//!
//! A statement is read off a [`Lexer`], which hands out one token at a time
//! while it reads one token ahead.  What the parser does is stated over the
//! lexer's view: [`take`] is one step of the lexer, [`expect`] a step that
//! asks for a class of token, and [`parse_insert`] and [`parse`] chain such
//! steps.

pub mod lexer;
pub mod token;

use crate::error::{
    CapacityError, LexError, Construct, ParseError, ParseErrorView, SqlError, SqlErrorView, TokenClass,
};
use crate::sql::lexer::{
    ascii_run, is_digit_char, lemma_run_len_props, CharClass, Lexer, LexerView,
};
use crate::sql::token::{Token, TokenView};
use crate::storage::{Row, RowView, Table, TableView};
use crate::text::{lemma_ascii_prefix, lemma_char_after_ascii_prefix};
use vstd::prelude::*;
use vstd::string::*;
use vstd::utf8::*;

verus! {

/// A `SELECT` statement.  It holds the names of the columns it asks for.
pub struct SelectStatement {
    columns: Vec<String>,
}

impl View for SelectStatement {
    type V = Seq<Seq<char>>;

    closed spec fn view(&self) -> Seq<Seq<char>> {
        self.columns.deep_view()
    }
}

impl SelectStatement {
    /// A statement that asks for `columns`.
    pub fn new(columns: Vec<String>) -> (statement: SelectStatement)
        ensures
            statement@ == columns.deep_view(),
    {
        Self { columns }
    }
}

/// An `INSERT` statement.  It holds the rows to insert, in order.
pub struct InsertStatement {
    pub rows: Vec<Row>,
}

/// The rows of a vector, each as its view.
pub open spec fn row_views(rows: Seq<Row>) -> Seq<RowView> {
    rows.map_values(|row: Row| row@)
}

impl View for InsertStatement {
    type V = Seq<RowView>;

    open spec fn view(&self) -> Seq<RowView> {
        row_views(self.rows@)
    }
}

impl InsertStatement {
    /// A statement that inserts `rows`.
    pub fn new(rows: Vec<Row>) -> (statement: InsertStatement)
        ensures
            statement.rows == rows,
    {
        Self { rows }
    }
}

/// A statement.
pub enum Statement {
    Select(SelectStatement),
    Insert(InsertStatement),
}

/// A statement as the values it holds.
#[verifier::ext_equal]
pub enum StatementView {
    Select { columns: Seq<Seq<char>> },
    Insert { rows: Seq<RowView> },
}

impl View for Statement {
    type V = StatementView;

    open spec fn view(&self) -> StatementView {
        match *self {
            Statement::Select(s) => StatementView::Select { columns: s@ },
            Statement::Insert(s) => StatementView::Insert { rows: s@ },
        }
    }
}

/// What carrying out a statement did.
#[derive(Clone, Copy, Debug, PartialEq, Eq)]
pub enum Outcome {
    /// So many rows were appended to the table.
    Inserted { rows: usize },
}

/// The number that a text of digits stands for.
pub open spec fn decimal_value(digits: Seq<char>) -> nat
    decreases digits.len(),
{
    if digits.len() == 0 {
        0
    } else {
        10 * decimal_value(digits.drop_last()) + (digits.last() as nat - '0' as nat) as nat
    }
}

/// Whether `text` is made of digits only.
pub open spec fn all_digits(text: Seq<char>) -> bool {
    forall|i: int| 0 <= i < text.len() ==> is_digit_char(#[trigger] text[i])
}

/// The id that `text` spells: its value, where it is a non-empty text of
/// digits whose value is a `u64`.
pub open spec fn parse_id(text: Seq<char>) -> Option<u64> {
    if text.len() > 0 && all_digits(text) && decimal_value(text) <= u64::MAX {
        Some(decimal_value(text) as u64)
    } else {
        None
    }
}

/// One step of a lexer: the token it hands out and the lexer behind it.  At
/// the end of the input the token is `Eof`, and the lexer has ended.
pub open spec fn take(v: LexerView) -> Result<(TokenView, LexerView), LexError> {
    if v.current is Eof {
        Ok((TokenView::Eof, LexerView { ended: true, ..v }))
    } else {
        match v.shift() {
            Ok(w) => Ok((v.current, w)),
            Err(e) => Err(e),
        }
    }
}

/// One step of a lexer that has to hand out a token of the class `class`
/// for an `INSERT` statement.
pub open spec fn expect(v: LexerView, class: TokenClass) -> Result<
    (TokenView, LexerView),
    SqlErrorView,
> {
    match take(v) {
        Ok((token, w)) => if class.admits(token) {
            Ok((token, w))
        } else {
            Err(
                SqlErrorView::Parse(
                    ParseErrorView::UnexpectedToken {
                        construct: Construct::Insert,
                        expected: class,
                        found: token,
                    },
                ),
            )
        },
        Err(e) => Err(SqlErrorView::Lex(e)),
    }
}

/// The `INSERT` statement that a lexer holds, whose current token is the
/// keyword: behind the keyword a number, two strings and a semicolon.  The
/// first token that is not what is due there is the error, unless reading
/// on meets an error in the text first; and an id that is no `u64` is an
/// error once the three values are read.
pub open spec fn parse_insert(v: LexerView) -> Result<StatementView, SqlErrorView> {
    match take(v) {
        Err(e) => Err(SqlErrorView::Lex(e)),
        Ok((_, v1)) => match expect(v1, TokenClass::Number) {
            Err(e) => Err(e),
            Ok((id, v2)) => match expect(v2, TokenClass::String) {
                Err(e) => Err(e),
                Ok((username, v3)) => match expect(v3, TokenClass::String) {
                    Err(e) => Err(e),
                    Ok((email, v4)) => match parse_id(id.text()) {
                        None => Err(
                            SqlErrorView::Parse(ParseErrorView::IdOutOfRange { found: id }),
                        ),
                        Some(n) => match expect(v4, TokenClass::Semicolon) {
                            Err(e) => Err(e),
                            Ok(_) => Ok(
                                StatementView::Insert {
                                    rows: seq![
                                        RowView {
                                            id: n,
                                            username: username.text(),
                                            email: email.text(),
                                        },
                                    ],
                                },
                            ),
                        },
                    },
                },
            },
        },
    }
}

/// The statement that `input` spells.  Its first token decides what kind of
/// statement it is; a `SELECT` is not carried out yet.
pub open spec fn parse(input: Seq<char>) -> Result<StatementView, SqlErrorView> {
    match LexerView::primed(input) {
        Err(e) => Err(SqlErrorView::Lex(e)),
        Ok(v) => match v.current {
            TokenView::Select => Err(SqlErrorView::Unimplemented),
            TokenView::Insert => parse_insert(v),
            TokenView::Eof => Err(SqlErrorView::Parse(ParseErrorView::EmptyInput)),
            found => Err(SqlErrorView::Parse(ParseErrorView::UnrecognizedKeyword { found })),
        },
    }
}

/// The token at place `i` of `tokens`, and `Eof` behind the last of them.
pub open spec fn token_at(tokens: Seq<TokenView>, i: int) -> TokenView {
    if 0 <= i < tokens.len() {
        tokens[i]
    } else {
        TokenView::Eof
    }
}

/// The tokens behind the first of `tokens`.
pub open spec fn tokens_behind(tokens: Seq<TokenView>) -> Seq<TokenView> {
    if tokens.len() > 0 {
        tokens.skip(1)
    } else {
        tokens
    }
}

/// The token that has to be of the class `class` and is not.
pub open spec fn unexpected(class: TokenClass, found: TokenView) -> SqlErrorView {
    SqlErrorView::Parse(
        ParseErrorView::UnexpectedToken { construct: Construct::Insert, expected: class, found },
    )
}

/// The statement that a sequence of tokens spells: the grammar
///
/// ```text
/// statement   := insert_stmt | select_stmt
/// insert_stmt := "insert" NUMBER STRING STRING ";"
/// ```
///
/// Tokens behind the semicolon are not looked at.
pub open spec fn parse_tokens(tokens: Seq<TokenView>) -> Result<StatementView, SqlErrorView> {
    let id = token_at(tokens, 1);
    let username = token_at(tokens, 2);
    let email = token_at(tokens, 3);
    if tokens.len() == 0 {
        Err(SqlErrorView::Parse(ParseErrorView::EmptyInput))
    } else if tokens[0] is Select {
        Err(SqlErrorView::Unimplemented)
    } else if !(tokens[0] is Insert) {
        Err(SqlErrorView::Parse(ParseErrorView::UnrecognizedKeyword { found: tokens[0] }))
    } else if !(id is Number) {
        Err(unexpected(TokenClass::Number, id))
    } else if !(username is String) {
        Err(unexpected(TokenClass::String, username))
    } else if !(email is String) {
        Err(unexpected(TokenClass::String, email))
    } else if parse_id(id.text()) is None {
        Err(SqlErrorView::Parse(ParseErrorView::IdOutOfRange { found: id }))
    } else if !(token_at(tokens, 4) is Semicolon) {
        Err(unexpected(TokenClass::Semicolon, token_at(tokens, 4)))
    } else {
        Ok(
            StatementView::Insert {
                rows: seq![
                    RowView {
                        id: parse_id(id.text())->0,
                        username: username.text(),
                        email: email.text(),
                    },
                ],
            },
        )
    }
}

/// One step of a lexer that has only tokens ahead hands out the first of
/// them and leaves a lexer that has the others ahead.
pub proof fn lemma_take_of_stream(v: LexerView, tokens: Seq<TokenView>)
    requires
        v.stream() == Ok::<Seq<TokenView>, LexError>(tokens),
    ensures
        take(v) is Ok,
        take(v)->Ok_0.0 == token_at(tokens, 0),
        take(v)->Ok_0.1.stream() == Ok::<Seq<TokenView>, LexError>(tokens_behind(tokens)),
        tokens.len() > 0 ==> v.current == tokens[0] && !(v.current is Eof),
        tokens.len() == 0 ==> v.current is Eof,
{
    if !(v.current is Eof) {
        crate::sql::lexer::lemma_shift_fuel(v);
        let w = v.shift()->Ok_0;
        assert(v.stream() == crate::sql::lexer::with_first(v.current, w.stream()));
        assert(tokens.skip(1) =~= w.stream()->Ok_0);
    }
}

/// Where the whole of a text is made of tokens, the statement that it
/// spells is the statement that its tokens spell.
pub proof fn lemma_parse_of_tokens(input: Seq<char>, tokens: Seq<TokenView>)
    requires
        crate::sql::lexer::tokenize(input) == Ok::<Seq<TokenView>, LexError>(tokens),
    ensures
        parse(input) == parse_tokens(tokens),
{
    crate::sql::lexer::lemma_stream_of_primed(input);
    let v = LexerView::primed(input)->Ok_0;
    lemma_take_of_stream(v, tokens);
    if tokens.len() > 0 && tokens[0] is Insert {
        let v1 = take(v)->Ok_0.1;
        let t1 = tokens_behind(tokens);
        lemma_take_of_stream(v1, t1);
        let v2 = take(v1)->Ok_0.1;
        let t2 = tokens_behind(t1);
        lemma_take_of_stream(v2, t2);
        let v3 = take(v2)->Ok_0.1;
        let t3 = tokens_behind(t2);
        lemma_take_of_stream(v3, t3);
        let v4 = take(v3)->Ok_0.1;
        let t4 = tokens_behind(t3);
        lemma_take_of_stream(v4, t4);
        assert(token_at(t1, 0) == token_at(tokens, 1));
        assert(token_at(t2, 0) == token_at(tokens, 2));
        assert(token_at(t3, 0) == token_at(tokens, 3));
        assert(token_at(t4, 0) == token_at(tokens, 4));
    }
}

/// What appending rows to a table one by one comes to: the table in the
/// end, the number of rows appended, and the error that stopped it, if one
/// did.
#[verifier::ext_equal]
pub struct InsertRun {
    pub table: TableView,
    pub inserted: nat,
    pub error: Option<CapacityError>,
}

/// Appends `rows` to `table` in order, up to the first row that is refused.
pub open spec fn insert_rows(table: TableView, rows: Seq<RowView>) -> InsertRun
    decreases rows.len(),
{
    if rows.len() == 0 {
        InsertRun { table, inserted: 0, error: None }
    } else {
        let before = insert_rows(table, rows.drop_last());
        if before.error is Some {
            before
        } else {
            match before.table.insert(rows.last()) {
                Ok(after) => InsertRun { table: after, inserted: before.inserted + 1, error: None },
                Err(e) => InsertRun { error: Some(e), ..before },
            }
        }
    }
}

/// Once a row is refused, the rows behind it change nothing; and as long as
/// none is refused, all are appended.
pub proof fn lemma_insert_rows(table: TableView, rows: Seq<RowView>, k: int)
    requires
        0 <= k <= rows.len(),
    ensures
        insert_rows(table, rows.take(k)).error is Some ==> insert_rows(table, rows) == insert_rows(
            table,
            rows.take(k),
        ),
        insert_rows(table, rows).error is None ==> insert_rows(table, rows).inserted == rows.len(),
    decreases rows.len(),
{
    if rows.len() > 0 {
        let front = rows.drop_last();
        if k < rows.len() {
            lemma_insert_rows(table, front, k);
            assert(front.take(k) =~= rows.take(k));
        } else {
            lemma_insert_rows(table, front, k - 1);
            assert(rows.take(k) =~= rows);
        }
    } else {
        assert(rows.take(k) =~= rows);
    }
}

/// What one more row adds to a run in which no row was refused.
pub proof fn lemma_insert_rows_step(table: TableView, rows: Seq<RowView>, i: int, now: TableView)
    requires
        0 <= i < rows.len(),
        insert_rows(table, rows.take(i)) == (InsertRun { table: now, inserted: i as nat, error: None }),
    ensures
        insert_rows(table, rows.take(i + 1)) == (match now.insert(rows[i]) {
            Ok(after) => InsertRun { table: after, inserted: (i + 1) as nat, error: None },
            Err(e) => InsertRun { table: now, inserted: i as nat, error: Some(e) },
        }),
{
    assert(rows.take(i + 1).drop_last() =~= rows.take(i));
    assert(rows.take(i + 1).last() == rows[i]);
}

/// The value of a text of digits is at least the value of any text that it
/// begins with.
pub proof fn lemma_decimal_prefix(digits: Seq<char>, k: int)
    requires
        0 <= k <= digits.len(),
    ensures
        decimal_value(digits.take(k)) <= decimal_value(digits),
    decreases digits.len(),
{
    if k < digits.len() {
        let front = digits.drop_last();
        lemma_decimal_prefix(front, k);
        assert(front.take(k) =~= digits.take(k));
    } else {
        assert(digits.take(k) =~= digits);
    }
}

/// The id that `text` spells, if it spells one.
pub fn parse_number(text: &str) -> (id: Option<u64>)
    ensures
        id == parse_id(text@),
{
    let bytes = text.as_bytes();
    let n = ascii_run(text, CharClass::Digit);
    proof {
        lemma_run_len_props(text@, CharClass::Digit);
        lemma_ascii_prefix(text@, n as int);
        lemma_char_after_ascii_prefix(text@, n as int);
    }
    if n == 0 || n < bytes.len() {
        return None;
    }
    let mut value: u64 = 0;
    let mut i: usize = 0;
    assert(text@.take(0) =~= Seq::<char>::empty());
    while i < n
        invariant
            i <= n,
            n == bytes@.len(),
            n == text@.len(),
            bytes@ == text.spec_bytes(),
            all_digits(text@),
            forall|j: int| 0 <= j < n ==> #[trigger] text@[j] == bytes@[j] as char,
            value == decimal_value(text@.take(i as int)),
        decreases n - i,
    {
        let ghost front = text@.take(i as int);
        let ghost longer = text@.take(i + 1);
        proof {
            assert(longer.drop_last() =~= front);
            assert(longer.last() == text@[i as int]);
            assert(is_digit_char(text@[i as int]));
            assert(text@[i as int] == bytes@[i as int] as char);
            lemma_decimal_prefix(text@, i + 1);
        }
        let digit = (bytes[i] - 48) as u64;
        assert(decimal_value(longer) == 10 * value + digit);
        let tens = match value.checked_mul(10) {
            Some(tens) => tens,
            None => {
                return None;
            },
        };
        value = match tens.checked_add(digit) {
            Some(sum) => sum,
            None => {
                return None;
            },
        };
        i += 1;
    }
    assert(text@.take(n as int) =~= text@);
    Some(value)
}

/// Takes the next token off `lexer`, which has to be of the class `class`
/// for an `INSERT` statement.
fn expect_token<'a>(lexer: &mut Lexer<'a>, class: TokenClass) -> (res: Result<
    Token<'a>,
    SqlError<'a>,
>)
    requires
        old(lexer).wf(),
        !old(lexer)@.ended,
    ensures
        final(lexer).wf(),
        match expect(old(lexer)@, class) {
            Ok((token, w)) => res is Ok && res->Ok_0@ == token && final(lexer)@ == w,
            Err(e) => res is Err && res->Err_0@ == e,
        },
{
    match lexer.next_token() {
        Err(e) => Err(SqlError::Lex(e)),
        Ok(next) => {
            let token = match next {
                Some(token) => token,
                None => Token::Eof,
            };
            if class.test(&token) {
                Ok(token)
            } else {
                Err(
                    SqlError::Parse(
                        ParseError::UnexpectedToken {
                            construct: Construct::Insert,
                            expected: class,
                            found: token,
                        },
                    ),
                )
            }
        },
    }
}

impl Statement {
    /// The statement that `input` spells, or the reason why it spells none.
    pub fn prepare<'a>(input: &'a str) -> (res: Result<Statement, SqlError<'a>>)
        ensures
            match parse(input@) {
                Ok(statement) => res is Ok && res->Ok_0@ == statement,
                Err(e) => res is Err && res->Err_0@ == e,
            },
    {
        let lexer = match Lexer::new(input) {
            Ok(lexer) => lexer,
            Err(e) => {
                return Err(SqlError::Lex(e));
            },
        };

        // The first token decides what kind of statement this is.
        match lexer.peek_token() {
            Some(token) => match token {
                Token::Select => Statement::parse_select(lexer),
                Token::Insert => Statement::parse_insert(lexer),
                token => Err(SqlError::Parse(ParseError::UnrecognizedKeyword { found: token })),
            },
            None => Err(SqlError::Parse(ParseError::EmptyInput)),
        }
    }

    /// Carries the statement out on `table`.  The rows of an `INSERT` are
    /// appended in order; the first row that is refused ends it, with the
    /// rows before it in the table.  A `SELECT` is not carried out yet.
    pub fn execute(self, table: &mut Table) -> (res: Result<Outcome, SqlError<'static>>)
        requires
            old(table)@.wf(),
        ensures
            final(table)@.wf(),
            match self@ {
                StatementView::Select { .. } => res is Err && res->Err_0@
                    == SqlErrorView::Unimplemented && final(table)@ == old(table)@,
                StatementView::Insert { rows } => {
                    let run = insert_rows(old(table)@, rows);
                    &&& final(table)@ == run.table
                    &&& match run.error {
                        Some(e) => res is Err && res->Err_0@ == SqlErrorView::Capacity(e),
                        None => res == Ok::<Outcome, SqlError<'static>>(
                            Outcome::Inserted { rows: rows.len() as usize },
                        ),
                    }
                },
            },
    {
        match self {
            Statement::Select(_) => Err(SqlError::Unimplemented),
            Statement::Insert(stmt) => {
                let ghost rows = row_views(stmt.rows@);
                let count = stmt.rows.len();
                let mut i: usize = 0;
                assert(rows.take(0) =~= Seq::<RowView>::empty());
                while i < count
                    invariant
                        i <= count,
                        count == stmt.rows@.len(),
                        rows == row_views(stmt.rows@),
                        self@ == (StatementView::Insert { rows }),
                        table@.wf(),
                        insert_rows(old(table)@, rows.take(i as int)) == (InsertRun {
                            table: table@,
                            inserted: i as nat,
                            error: None,
                        }),
                    decreases count - i,
                {
                    proof {
                        assert(rows[i as int] == stmt.rows@[i as int]@);
                        lemma_insert_rows_step(old(table)@, rows, i as int, table@);
                        lemma_insert_rows(old(table)@, rows, i + 1);
                    }
                    match table.insert(&stmt.rows[i]) {
                        Ok(_) => {},
                        Err(e) => {
                            return Err(SqlError::Capacity(e));
                        },
                    }
                    i += 1;
                }
                proof {
                    assert(rows.take(count as int) =~= rows);
                }
                Ok(Outcome::Inserted { rows: count })
            },
        }
    }

    /// Reads an `INSERT` statement off `lexer`, whose current token is the
    /// keyword.
    fn parse_insert<'a>(lexer: Lexer<'a>) -> (res: Result<Statement, SqlError<'a>>)
        requires
            lexer.wf(),
            !lexer@.ended,
            lexer@.current is Insert,
        ensures
            match parse_insert(lexer@) {
                Ok(statement) => res is Ok && res->Ok_0@ == statement,
                Err(e) => res is Err && res->Err_0@ == e,
            },
    {
        broadcast use vstd::string::group_string_axioms;

        let mut lexer = lexer;
        match lexer.next_token() {
            Ok(_) => {},
            Err(e) => {
                return Err(SqlError::Lex(e));
            },
        }

        // For now insert statements look like
        //
        // insert 1 "cstack" "foo@bar.com";
        let id = match expect_token(&mut lexer, TokenClass::Number) {
            Ok(token) => token,
            Err(e) => {
                return Err(e);
            },
        };
        let username = match expect_token(&mut lexer, TokenClass::String) {
            Ok(token) => token,
            Err(e) => {
                return Err(e);
            },
        };
        let email = match expect_token(&mut lexer, TokenClass::String) {
            Ok(token) => token,
            Err(e) => {
                return Err(e);
            },
        };

        let number = match parse_number(id.into_str()) {
            Some(number) => number,
            None => {
                return Err(SqlError::Parse(ParseError::IdOutOfRange { found: id }));
            },
        };
        let row = Row::new(number, username.into_str().to_string(), email.into_str().to_string());
        let ghost row_view = row@;
        let mut rows: Vec<Row> = Vec::new();
        rows.push(row);
        proof {
            assert(row_views(rows@) =~= seq![row_view]);
        }

        // Consume the semicolon
        match expect_token(&mut lexer, TokenClass::Semicolon) {
            Ok(_) => {},
            Err(e) => {
                return Err(e);
            },
        }

        Ok(Statement::Insert(InsertStatement::new(rows)))
    }

    /// Reads a `SELECT` statement off `lexer`.  That is not done yet: the
    /// answer is always that it is not.
    fn parse_select<'a>(_lexer: Lexer<'a>) -> (res: Result<Statement, SqlError<'a>>)
        ensures
            res is Err,
            res->Err_0@ == SqlErrorView::Unimplemented,
    {
        Err(SqlError::Unimplemented)
    }
}

} // verus!
