use sqlrite::error::LexError;
use sqlrite::sql::lexer::{is_identifier_char, Lexer};
use sqlrite::sql::token::Token;

#[test]
fn test_lexer_simple() {
    let input = "1, 2, 1000, \"foo\", 'bar', ident;";

    let mut lexer = Lexer::new(input).unwrap();
    let tokens = lexer.collect_tokens().unwrap();

    assert_eq!(
        &tokens,
        &vec![
            Token::Number("1"),
            Token::Comma,
            Token::Number("2"),
            Token::Comma,
            Token::Number("1000"),
            Token::Comma,
            Token::String("foo"),
            Token::Comma,
            Token::String("bar"),
            Token::Comma,
            Token::Identifier("ident"),
            Token::Semicolon,
        ]
    );
}

#[test]
fn test_lexer() {
    let input = "select foo, bar, baz, 1 + 2 as foo2, 1 - 2 as foo3 from my_table where 1 = 1;";

    let mut lexer = Lexer::new(input).unwrap();
    let tokens = lexer.collect_tokens().unwrap();

    assert_eq!(
        &tokens,
        &vec![
            Token::Select,
            Token::Identifier("foo"),
            Token::Comma,
            Token::Identifier("bar"),
            Token::Comma,
            Token::Identifier("baz"),
            Token::Comma,
            Token::Number("1"),
            Token::Plus,
            Token::Number("2"),
            Token::As,
            Token::Identifier("foo2"),
            Token::Comma,
            Token::Number("1"),
            Token::Minus,
            Token::Number("2"),
            Token::As,
            Token::Identifier("foo3"),
            Token::From,
            Token::Identifier("my_table"),
            Token::Where,
            Token::Number("1"),
            Token::Equal,
            Token::Number("1"),
            Token::Semicolon,
        ]
    );
}

#[test]
fn keywords_and_identifiers_are_told_apart() {
    let mut lexer = Lexer::new("select foo from my_table where 1 = 1;").unwrap();
    let tokens = lexer.collect_tokens().unwrap();
    assert_eq!(
        tokens,
        vec![
            Token::Select,
            Token::Identifier("foo"),
            Token::From,
            Token::Identifier("my_table"),
            Token::Where,
            Token::Number("1"),
            Token::Equal,
            Token::Number("1"),
            Token::Semicolon,
        ]
    );
}

#[test]
fn keywords_are_case_sensitive_and_whole_words() {
    let mut lexer = Lexer::new("Select selects insert_ AS as").unwrap();
    let tokens = lexer.collect_tokens().unwrap();
    assert_eq!(
        tokens,
        vec![
            Token::Identifier("Select"),
            Token::Identifier("selects"),
            Token::Identifier("insert_"),
            Token::Identifier("AS"),
            Token::As,
        ]
    );
}

#[test]
fn empty_input_is_at_eof() {
    let mut lexer = Lexer::new("").unwrap();
    assert!(lexer.at_eof());
    assert_eq!(lexer.peek_token(), None);
    assert_eq!(lexer.collect_tokens(), Ok(vec![]));
    assert!(!lexer.has_ended());
    assert_eq!(lexer.next_token(), Ok(None));
    assert!(lexer.has_ended());
}

#[test]
fn blanks_around_tokens_are_skipped() {
    let mut lexer = Lexer::new(" \t\r\n1 \x0b\x0c 2  ").unwrap();
    let tokens = lexer.collect_tokens().unwrap();
    assert_eq!(tokens, vec![Token::Number("1"), Token::Number("2")]);
    assert!(lexer.at_eof());
}

#[test]
fn input_of_blanks_only_is_at_eof() {
    let lexer = Lexer::new("   ").unwrap();
    assert!(lexer.at_eof());
    assert_eq!(lexer.remaining(), "");
}

#[test]
fn peek_does_not_consume() {
    let mut lexer = Lexer::new("a b c").unwrap();
    assert_eq!(lexer.peek_token(), Some(Token::Identifier("a")));
    assert_eq!(lexer.peek_token(), Some(Token::Identifier("a")));
    assert_eq!(lexer.next_token(), Ok(Some(Token::Identifier("a"))));
    assert_eq!(lexer.peek_token(), Some(Token::Identifier("b")));
    assert_eq!(lexer.next_token(), Ok(Some(Token::Identifier("b"))));
    assert_eq!(lexer.next_token(), Ok(Some(Token::Identifier("c"))));
    assert!(lexer.at_eof());
    assert!(!lexer.has_ended());
    assert_eq!(lexer.next_token(), Ok(None));
    assert!(lexer.has_ended());
}

#[test]
fn lexer_reads_one_token_ahead() {
    let lexer = Lexer::new("a b c d").unwrap();
    // The first two tokens are in hand, the text behind them is unread.
    assert_eq!(lexer.remaining(), " c d");
}

#[test]
fn numbers_and_words_are_longest_runs() {
    let mut lexer = Lexer::new("12ab 345 x9y+z_1").unwrap();
    let tokens = lexer.collect_tokens().unwrap();
    assert_eq!(
        tokens,
        vec![
            Token::Number("12"),
            Token::Identifier("ab"),
            Token::Number("345"),
            Token::Identifier("x9y"),
            Token::Plus,
            Token::Identifier("z_1"),
        ]
    );
}

#[test]
fn underscore_does_not_start_a_word() {
    // `3_4` is the number 3, and then `_` starts no token.
    assert_eq!(
        Lexer::new("3_4").err(),
        Some(LexError::UnexpectedChar { ch: '_', offset: 1 })
    );
}

#[test]
fn string_literals_keep_their_text_as_it_is() {
    let mut lexer = Lexer::new("'a \"b\" c' \"it's\" '' 'héllo wörld'").unwrap();
    let tokens = lexer.collect_tokens().unwrap();
    assert_eq!(
        tokens,
        vec![
            Token::String("a \"b\" c"),
            Token::String("it's"),
            Token::String(""),
            Token::String("héllo wörld"),
        ]
    );
}

#[test]
fn unknown_character_is_an_error_with_its_offset() {
    assert_eq!(
        Lexer::new("  @").err(),
        Some(LexError::UnexpectedChar { ch: '@', offset: 2 })
    );
    assert_eq!(
        Lexer::new("1 *").err(),
        Some(LexError::UnexpectedChar { ch: '*', offset: 2 })
    );
}

#[test]
fn character_outside_ascii_is_an_error_with_its_byte_offset() {
    assert_eq!(
        Lexer::new("'é' é").err(),
        Some(LexError::UnexpectedChar { ch: 'é', offset: 5 })
    );
    assert_eq!(
        Lexer::new("\u{a0}1").err(),
        Some(LexError::UnexpectedChar { ch: '\u{a0}', offset: 0 })
    );
}

#[test]
fn unterminated_string_is_an_error_with_the_offset_of_its_quote() {
    assert_eq!(
        Lexer::new(" 'abc").err(),
        Some(LexError::UnterminatedString { delimiter: '\'', offset: 1 })
    );
    assert_eq!(
        Lexer::new("\"abc'").err(),
        Some(LexError::UnterminatedString { delimiter: '"', offset: 0 })
    );
    assert_eq!(
        Lexer::new("'").err(),
        Some(LexError::UnterminatedString { delimiter: '\'', offset: 0 })
    );
}

#[test]
fn error_beyond_the_window_comes_when_it_is_read() {
    let mut lexer = Lexer::new("a b @").unwrap();
    let error = LexError::UnexpectedChar { ch: '@', offset: 4 };
    assert_eq!(lexer.next_token(), Err(error));
    // Nothing has changed: the same call fails in the same way.
    assert_eq!(lexer.peek_token(), Some(Token::Identifier("a")));
    assert_eq!(lexer.remaining(), " @");
    assert_eq!(lexer.next_token(), Err(error));
    assert_eq!(lexer.collect_tokens(), Err(error));
}

#[test]
fn collect_tokens_starts_at_the_current_token() {
    let mut lexer = Lexer::new("a, b").unwrap();
    assert_eq!(lexer.next_token(), Ok(Some(Token::Identifier("a"))));
    assert_eq!(
        lexer.collect_tokens(),
        Ok(vec![Token::Comma, Token::Identifier("b")])
    );
    assert!(lexer.at_eof());
}

#[test]
fn into_str_gives_the_text() {
    assert_eq!(Token::Number("12").into_str(), "12");
    assert_eq!(Token::String("a b").into_str(), "a b");
    assert_eq!(Token::Identifier("x").into_str(), "x");
}

#[test]
fn identifier_chars() {
    for ch in ['a', 'z', 'A', 'Z', '0', '9', '_'] {
        assert!(is_identifier_char(ch));
    }
    for ch in [' ', '-', '@', '[', '`', '{', '/', ':', 'é'] {
        assert!(!is_identifier_char(ch));
    }
}
