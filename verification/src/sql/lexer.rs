//! Turning text into tokens.
//!
//! The rules are stated once, over sequences of characters, by [`scan`]: it
//! says which token a text starts with and what text is left behind it.  The
//! [`Lexer`] applies them to a string while keeping two tokens in hand, the
//! current one and the one after it.

use crate::error::LexError;
use crate::text::{
    first_char, lemma_ascii_byte_absent, lemma_ascii_prefix, lemma_boundary_in_suffix,
    lemma_char_after_ascii_prefix, lemma_empty_encoding, lemma_first_char, split_ascii_prefix, split_str, str_eq,
};
use crate::sql::token::{Token, TokenView};
use vstd::prelude::*;
use vstd::string::*;
use vstd::utf8::*;

verus! {

/// Blank characters: the space and the ASCII controls from tab to carriage
/// return.
pub open spec fn is_space_char(c: char) -> bool {
    c == ' ' || ('\t' <= c && c <= '\r')
}

/// The letters `a` to `z` and `A` to `Z`.
pub open spec fn is_letter_char(c: char) -> bool {
    ('a' <= c && c <= 'z') || ('A' <= c && c <= 'Z')
}

/// The digits `0` to `9`.
pub open spec fn is_digit_char(c: char) -> bool {
    '0' <= c && c <= '9'
}

/// The characters a word is made of: letters, digits and the underscore.
pub open spec fn is_word_char(c: char) -> bool {
    is_letter_char(c) || is_digit_char(c) || c == '_'
}

/// The two quotes that can open a string literal.
pub open spec fn is_quote_char(c: char) -> bool {
    c == '"' || c == '\''
}

/// A set of characters that a run is made of.
#[derive(Clone, Copy, Debug, PartialEq, Eq)]
pub enum CharClass {
    Space,
    Word,
    Digit,
    /// Every character but the given one.
    Except(char),
}

impl CharClass {
    /// Whether `c` belongs to the class.
    pub open spec fn admits(self, c: char) -> bool {
        match self {
            CharClass::Space => is_space_char(c),
            CharClass::Word => is_word_char(c),
            CharClass::Digit => is_digit_char(c),
            CharClass::Except(d) => c != d,
        }
    }

    /// Whether `c` belongs to the class.
    pub fn test(&self, c: char) -> (admitted: bool)
        ensures
            admitted == self.admits(c),
    {
        match self {
            CharClass::Space => is_space(c),
            CharClass::Word => is_identifier_char(c),
            CharClass::Digit => is_digit(c),
            CharClass::Except(d) => c != *d,
        }
    }
}

/// The number of characters at the start of `s` that belong to `class`.
pub open spec fn run_len(s: Seq<char>, class: CharClass) -> nat
    decreases s.len(),
{
    if s.len() > 0 && class.admits(s[0]) {
        1 + run_len(s.drop_first(), class)
    } else {
        0
    }
}

/// A run is as long as the text at most, is made of the class, and stops at
/// the first character outside it.
pub proof fn lemma_run_len_props(s: Seq<char>, class: CharClass)
    ensures
        run_len(s, class) <= s.len(),
        forall|j: int| 0 <= j < run_len(s, class) ==> class.admits(#[trigger] s[j]),
        run_len(s, class) < s.len() ==> !class.admits(s[run_len(s, class) as int]),
    decreases s.len(),
{
    if s.len() > 0 && class.admits(s[0]) {
        let t = s.drop_first();
        lemma_run_len_props(t, class);
        assert forall|j: int| 0 <= j < run_len(s, class) implies class.admits(#[trigger] s[j]) by {
            if j > 0 {
                assert(s[j] == t[j - 1]);
            }
        }
        if run_len(s, class) < s.len() {
            assert(s[run_len(s, class) as int] == t[run_len(t, class) as int]);
        }
    }
}

/// The one length with the properties of a run is the length of the run.
pub proof fn lemma_run_len_is(s: Seq<char>, class: CharClass, n: int)
    requires
        0 <= n <= s.len(),
        forall|j: int| 0 <= j < n ==> class.admits(#[trigger] s[j]),
        n < s.len() ==> !class.admits(s[n]),
    ensures
        run_len(s, class) == n,
    decreases n,
{
    if n > 0 {
        let t = s.drop_first();
        assert(class.admits(s[0]));
        assert forall|j: int| 0 <= j < n - 1 implies class.admits(#[trigger] t[j]) by {
            assert(t[j] == s[j + 1]);
        }
        if n - 1 < t.len() {
            assert(t[n - 1] == s[n]);
        }
        lemma_run_len_is(t, class, n - 1);
    }
}

/// The token that a word stands for: a keyword, or else an identifier.
pub open spec fn word_token(text: Seq<char>) -> TokenView {
    if text == "select"@ {
        TokenView::Select
    } else if text == "insert"@ {
        TokenView::Insert
    } else if text == "as"@ {
        TokenView::As
    } else if text == "from"@ {
        TokenView::From
    } else if text == "where"@ {
        TokenView::Where
    } else {
        TokenView::Identifier(text)
    }
}

/// The token that a single character stands for, if any.
pub open spec fn symbol_token(c: char) -> Option<TokenView> {
    if c == ',' {
        Some(TokenView::Comma)
    } else if c == ';' {
        Some(TokenView::Semicolon)
    } else if c == '+' {
        Some(TokenView::Plus)
    } else if c == '-' {
        Some(TokenView::Minus)
    } else if c == '=' {
        Some(TokenView::Equal)
    } else {
        None
    }
}

/// What stands at the start of a text.
#[verifier::ext_equal]
pub enum Scanned {
    /// A token, and the text behind it.
    Token { token: TokenView, rest: Seq<char> },
    /// A character that starts no token, behind `skipped` blanks.
    UnexpectedChar { ch: char, skipped: nat },
    /// A quote that is never closed, behind `skipped` blanks.
    UnterminatedString { delimiter: char, skipped: nat },
}

/// Reads one token off the start of `s`.
///
/// Blanks are skipped first.  Then the first character decides: a letter
/// starts the longest possible word, a digit the longest possible number, a
/// quote a string that runs up to the next quote of the same kind, and one
/// of `, ; + - =` stands for itself.  The end of the text is the token
/// `Eof`.  Anything else is an error.
pub open spec fn scan(s: Seq<char>) -> Scanned {
    let skipped = run_len(s, CharClass::Space);
    let t = s.skip(skipped as int);
    if t.len() == 0 {
        Scanned::Token { token: TokenView::Eof, rest: t }
    } else if is_letter_char(t[0]) {
        let n = run_len(t, CharClass::Word) as int;
        Scanned::Token { token: word_token(t.take(n)), rest: t.skip(n) }
    } else if is_quote_char(t[0]) {
        let body = t.skip(1);
        let n = run_len(body, CharClass::Except(t[0])) as int;
        if n == body.len() {
            Scanned::UnterminatedString { delimiter: t[0], skipped }
        } else {
            Scanned::Token { token: TokenView::String(body.take(n)), rest: body.skip(n + 1) }
        }
    } else if is_digit_char(t[0]) {
        let n = run_len(t, CharClass::Digit) as int;
        Scanned::Token { token: TokenView::Number(t.take(n)), rest: t.skip(n) }
    } else {
        match symbol_token(t[0]) {
            Some(token) => Scanned::Token { token, rest: t.skip(1) },
            None => Scanned::UnexpectedChar { ch: t[0], skipped },
        }
    }
}

/// What a lexer stands for: the two tokens it holds, the length in bytes of
/// its whole input, the text it has not read yet, and whether it has handed
/// out the end of its input.
#[verifier::ext_equal]
pub struct LexerView {
    pub current: TokenView,
    pub next: TokenView,
    pub total: nat,
    pub rest: Seq<char>,
    pub ended: bool,
}

impl LexerView {
    /// The byte offset in the input at which the unread text begins.
    pub open spec fn offset(self) -> int {
        self.total - encode_utf8(self.rest).len()
    }

    /// A lexer that has read nothing of `input` yet.
    pub open spec fn start(input: Seq<char>) -> LexerView {
        LexerView {
            current: TokenView::Error,
            next: TokenView::Error,
            total: encode_utf8(input).len(),
            rest: input,
            ended: false,
        }
    }

    /// Reads one more token: the token after the current one becomes the
    /// current one, and the new token takes its place.
    pub open spec fn shift(self) -> Result<LexerView, LexError> {
        match scan(self.rest) {
            Scanned::Token { token, rest } => Ok(
                LexerView {
                    current: self.next,
                    next: token,
                    total: self.total,
                    rest,
                    ended: self.ended,
                },
            ),
            Scanned::UnexpectedChar { ch, skipped } => Err(
                LexError::UnexpectedChar { ch, offset: (self.offset() + skipped) as usize },
            ),
            Scanned::UnterminatedString { delimiter, skipped } => Err(
                LexError::UnterminatedString {
                    delimiter,
                    offset: (self.offset() + skipped) as usize,
                },
            ),
        }
    }

    /// A lexer on `input` with both of its tokens read.
    pub open spec fn primed(input: Seq<char>) -> Result<LexerView, LexError> {
        match Self::start(input).shift() {
            Ok(v) => v.shift(),
            Err(e) => Err(e),
        }
    }

    /// A bound on the number of tokens still to come.
    pub open spec fn fuel(self) -> nat {
        3 * self.rest.len() + (if self.current is Eof {
            0nat
        } else {
            1nat
        }) + (if self.next is Eof {
            0nat
        } else {
            1nat
        })
    }

    /// The tokens that the lexer hands out from here up to the end of the
    /// input, the current one first and `Eof` left out; or the first error
    /// that reading on meets.
    ///
    /// Reading a token always lowers [`fuel`](Self::fuel), as
    /// [`lemma_shift_fuel`] shows, so the branch for the other case is
    /// there for the sake of termination only.
    pub open spec fn stream(self) -> Result<Seq<TokenView>, LexError>
        decreases self.fuel(),
    {
        if self.current is Eof {
            Ok(Seq::empty())
        } else {
            match self.shift() {
                Ok(v) => if v.fuel() < self.fuel() {
                    with_first(self.current, v.stream())
                } else {
                    Ok(seq![self.current])
                },
                Err(e) => Err(e),
            }
        }
    }
}

/// `first` put before the tokens of `tail`, if there are any.
pub open spec fn with_first(first: TokenView, tail: Result<Seq<TokenView>, LexError>) -> Result<
    Seq<TokenView>,
    LexError,
> {
    match tail {
        Ok(tokens) => Ok(seq![first] + tokens),
        Err(e) => Err(e),
    }
}

/// `head` put before the tokens of `tail`, if there are any.
pub open spec fn with_prefix(
    head: Seq<TokenView>,
    tail: Result<Seq<TokenView>, LexError>,
) -> Result<Seq<TokenView>, LexError> {
    match tail {
        Ok(tokens) => Ok(head + tokens),
        Err(e) => Err(e),
    }
}

/// The tokens of a vector, each as its view.
pub open spec fn token_views<'a>(tokens: Seq<Token<'a>>) -> Seq<TokenView> {
    tokens.map_values(|t: Token<'a>| t@)
}

/// A token that is read takes at least one character with it, unless it is
/// `Eof`; and an empty text holds `Eof` only.
pub proof fn lemma_scan_consumes(s: Seq<char>)
    ensures
        scan(s) matches Scanned::Token { token, rest } ==> rest.len() <= s.len() && (s.len() > 0
            ==> rest.len() < s.len()) && (s.len() == 0 ==> token is Eof) && (token is Eof
            ==> rest.len() == 0),
{
    lemma_run_len_props(s, CharClass::Space);
    let skipped = run_len(s, CharClass::Space);
    let t = s.skip(skipped as int);
    if t.len() > 0 {
        lemma_run_len_props(t, CharClass::Word);
        lemma_run_len_props(t, CharClass::Digit);
        lemma_run_len_props(t.skip(1), CharClass::Except(t[0]));
        reveal_strlit("select");
        reveal_strlit("insert");
        reveal_strlit("as");
        reveal_strlit("from");
        reveal_strlit("where");
    }
}

/// All the tokens of the text `s`, which is the end of an input of `total`
/// bytes, with `Eof` left out; or the first error in it.
///
/// A token other than `Eof` always leaves a shorter text behind, as
/// [`lemma_scan_consumes`] shows, so the branch for the other case is there
/// for the sake of termination only.
pub open spec fn tokens_from(s: Seq<char>, total: nat) -> Result<Seq<TokenView>, LexError>
    decreases s.len(),
{
    match scan(s) {
        Scanned::Token { token, rest } => if token is Eof {
            Ok(Seq::empty())
        } else if rest.len() < s.len() {
            with_first(token, tokens_from(rest, total))
        } else {
            Ok(seq![token])
        },
        Scanned::UnexpectedChar { ch, skipped } => Err(
            LexError::UnexpectedChar {
                ch,
                offset: (total - encode_utf8(s).len() + skipped) as usize,
            },
        ),
        Scanned::UnterminatedString { delimiter, skipped } => Err(
            LexError::UnterminatedString {
                delimiter,
                offset: (total - encode_utf8(s).len() + skipped) as usize,
            },
        ),
    }
}

/// All the tokens of `input`, with `Eof` left out; or the first error in
/// it.
pub open spec fn tokenize(input: Seq<char>) -> Result<Seq<TokenView>, LexError> {
    tokens_from(input, encode_utf8(input).len())
}

/// A lexer that holds the first two tokens of a text hands out the tokens
/// of that text.
proof fn lemma_stream_tokens(s: Seq<char>, total: nat, ended: bool)
    requires
        scan(s) is Token,
        scan(scan(s)->rest) is Token,
    ensures
        (LexerView {
            current: scan(s)->token,
            next: scan(scan(s)->rest)->token,
            total,
            rest: scan(scan(s)->rest)->rest,
            ended,
        }).stream() == tokens_from(s, total),
    decreases s.len(),
{
    let current = scan(s)->token;
    let s1 = scan(s)->rest;
    let next = scan(s1)->token;
    let s2 = scan(s1)->rest;
    let v = LexerView { current, next, total, rest: s2, ended };
    lemma_scan_consumes(s);
    lemma_scan_consumes(s1);
    lemma_scan_consumes(s2);
    if current is Eof {
        assert(v.stream() == Ok::<Seq<TokenView>, LexError>(Seq::empty()));
        assert(tokens_from(s, total) == Ok::<Seq<TokenView>, LexError>(Seq::empty()));
    } else {
        lemma_shift_fuel(v);
        assert(tokens_from(s, total) == with_first(current, tokens_from(s1, total)));
        match scan(s2) {
            Scanned::Token { token, rest } => {
                let w = LexerView { current: next, next: token, total, rest, ended };
                assert(v.shift() == Ok::<LexerView, LexError>(w));
                lemma_stream_tokens(s1, total, ended);
                assert(v.stream() == with_first(current, w.stream()));
            },
            Scanned::UnexpectedChar { ch, skipped } => {
                let e = LexError::UnexpectedChar {
                    ch,
                    offset: (total - encode_utf8(s2).len() + skipped) as usize,
                };
                assert(v.shift() == Err::<LexerView, LexError>(e));
                assert(v.stream() == Err::<Seq<TokenView>, LexError>(e));
                assert(tokens_from(s2, total) == Err::<Seq<TokenView>, LexError>(e));
                assert(tokens_from(s1, total) == with_first(next, tokens_from(s2, total)));
            },
            Scanned::UnterminatedString { delimiter, skipped } => {
                let e = LexError::UnterminatedString {
                    delimiter,
                    offset: (total - encode_utf8(s2).len() + skipped) as usize,
                };
                assert(v.shift() == Err::<LexerView, LexError>(e));
                assert(v.stream() == Err::<Seq<TokenView>, LexError>(e));
                assert(tokens_from(s2, total) == Err::<Seq<TokenView>, LexError>(e));
                assert(tokens_from(s1, total) == with_first(next, tokens_from(s2, total)));
            },
        }
    }
}

/// Making a lexer on a text and collecting its tokens gives the tokens of
/// the text, or the first error in the text.  The error may come when the
/// lexer is made already, since it reads two tokens ahead.
pub proof fn lemma_stream_of_primed(input: Seq<char>)
    ensures
        match LexerView::primed(input) {
            Ok(v) => v.stream() == tokenize(input),
            Err(e) => tokenize(input) == Err::<Seq<TokenView>, LexError>(e),
        },
{
    let total = encode_utf8(input).len();
    let start = LexerView::start(input);
    assert(start.offset() == 0);
    lemma_scan_consumes(input);
    match scan(input) {
        Scanned::Token { token, rest } => {
            let first = LexerView {
                current: TokenView::Error,
                next: token,
                total,
                rest,
                ended: false,
            };
            assert(start.shift() == Ok::<LexerView, LexError>(first));
            lemma_scan_consumes(rest);
            match scan(rest) {
                Scanned::Token { token: second, rest: unread } => {
                    lemma_stream_tokens(input, total, false);
                },
                Scanned::UnexpectedChar { ch, skipped } => {
                    let e = LexError::UnexpectedChar {
                        ch,
                        offset: (total - encode_utf8(rest).len() + skipped) as usize,
                    };
                    assert(first.shift() == Err::<LexerView, LexError>(e));
                    assert(tokens_from(rest, total) == Err::<Seq<TokenView>, LexError>(e));
                    assert(tokens_from(input, total) == with_first(token, tokens_from(rest, total)));
                },
                Scanned::UnterminatedString { delimiter, skipped } => {
                    let e = LexError::UnterminatedString {
                        delimiter,
                        offset: (total - encode_utf8(rest).len() + skipped) as usize,
                    };
                    assert(first.shift() == Err::<LexerView, LexError>(e));
                    assert(tokens_from(rest, total) == Err::<Seq<TokenView>, LexError>(e));
                    assert(tokens_from(input, total) == with_first(token, tokens_from(rest, total)));
                },
            }
        },
        Scanned::UnexpectedChar { ch, skipped } => {},
        Scanned::UnterminatedString { delimiter, skipped } => {},
    }
}

/// Reading a token brings a lexer nearer to the end of its input.
pub proof fn lemma_shift_fuel(v: LexerView)
    requires
        !(v.current is Eof),
    ensures
        v.shift() matches Ok(w) ==> w.fuel() < v.fuel(),
{
    lemma_scan_consumes(v.rest);
}

/// Whether `c` is a blank.
pub fn is_space(c: char) -> (blank: bool)
    ensures
        blank == is_space_char(c),
{
    c == ' ' || ('\t' <= c && c <= '\r')
}

/// Whether `c` is a letter.
pub fn is_letter(c: char) -> (letter: bool)
    ensures
        letter == is_letter_char(c),
{
    ('a' <= c && c <= 'z') || ('A' <= c && c <= 'Z')
}

/// Whether `c` is a digit.
pub fn is_digit(c: char) -> (digit: bool)
    ensures
        digit == is_digit_char(c),
{
    '0' <= c && c <= '9'
}

/// Whether `ch` can stand in a word.
pub fn is_identifier_char(ch: char) -> (admitted: bool)
    ensures
        admitted == is_word_char(ch),
{
    is_letter(ch) || is_digit(ch) || ch == '_'
}

/// The keyword that `word` spells, or else the identifier that it is.
pub fn keyword_or_identifier<'a>(word: &'a str) -> (token: Token<'a>)
    ensures
        token@ == word_token(word@),
{
    if str_eq(word, "select") {
        Token::Select
    } else if str_eq(word, "insert") {
        Token::Insert
    } else if str_eq(word, "as") {
        Token::As
    } else if str_eq(word, "from") {
        Token::From
    } else if str_eq(word, "where") {
        Token::Where
    } else {
        Token::Identifier(word)
    }
}

/// The token that the character `ch` stands for, if any.
pub fn symbol(ch: char) -> (token: Option<Token<'static>>)
    ensures
        token is Some <==> symbol_token(ch) is Some,
        token matches Some(t) ==> symbol_token(ch) == Some(t@),
{
    if ch == ',' {
        Some(Token::Comma)
    } else if ch == ';' {
        Some(Token::Semicolon)
    } else if ch == '+' {
        Some(Token::Plus)
    } else if ch == '-' {
        Some(Token::Minus)
    } else if ch == '=' {
        Some(Token::Equal)
    } else {
        None
    }
}

/// The length of the run of `class` at the start of `text`, for a class of
/// ASCII characters.  The bytes of the run are the characters of the run.
pub(crate) fn ascii_run(text: &str, class: CharClass) -> (n: usize)
    requires
        !(class is Except),
    ensures
        n == run_len(text@, class),
        n <= text@.len(),
        n <= text.spec_bytes().len(),
        forall|i: int| 0 <= i < n ==> #[trigger] text.spec_bytes()[i] < 0x80,
{
    let bytes = text.as_bytes();
    let mut i: usize = 0;
    while i < bytes.len() && bytes[i] < 0x80 && class.test(bytes[i] as char)
        invariant
            i <= bytes@.len(),
            bytes@ == text.spec_bytes(),
            !(class is Except),
            forall|j: int|
                0 <= j < i ==> #[trigger] bytes@[j] < 0x80 && class.admits(bytes@[j] as char),
        decreases bytes@.len() - i,
    {
        i += 1;
    }
    proof {
        lemma_ascii_prefix(text@, i as int);
        lemma_char_after_ascii_prefix(text@, i as int);
        assert forall|j: int| 0 <= j < i implies class.admits(#[trigger] text@[j]) by {
            assert(bytes@[j] < 0x80);
        }
        lemma_run_len_is(text@, class, i as int);
    }
    i
}

/// The position of the first byte `d` in `text`, if there is one.
pub fn find_byte(text: &str, d: u8) -> (found: Option<usize>)
    ensures
        found matches Some(j) ==> j < text.spec_bytes().len() && text.spec_bytes()[j as int] == d
            && forall|i: int| 0 <= i < j ==> #[trigger] text.spec_bytes()[i] != d,
        found is None ==> forall|i: int|
            0 <= i < text.spec_bytes().len() ==> #[trigger] text.spec_bytes()[i] != d,
{
    let bytes = text.as_bytes();
    let mut i: usize = 0;
    while i < bytes.len()
        invariant
            i <= bytes@.len(),
            bytes@ == text.spec_bytes(),
            forall|j: int| 0 <= j < i ==> #[trigger] bytes@[j] != d,
        decreases bytes@.len() - i,
    {
        if bytes[i] == d {
            return Some(i);
        }
        i += 1;
    }
    None
}

/// A lexer over one input text.
///
/// It holds the text, the byte offset up to which it has read, and two
/// tokens: the current one and the one after it, which has been read
/// already, so that looking at the current token reads nothing.  It also
/// keeps whether it has handed out the end of its input: that happens once,
/// and a lexer that has ended hands out nothing more.
#[derive(Debug)]
pub struct Lexer<'a> {
    input: &'a str,
    current_token: Token<'a>,
    next_token: Token<'a>,
    cursor: usize,
    ended: bool,
}

impl<'a> View for Lexer<'a> {
    type V = LexerView;

    closed spec fn view(&self) -> LexerView {
        LexerView {
            current: self.current_token@,
            next: self.next_token@,
            total: self.input.spec_bytes().len(),
            rest: decode_utf8(self.rest_bytes()),
            ended: self.ended,
        }
    }
}

impl<'a> Lexer<'a> {
    /// The bytes that have not been read yet.
    pub closed spec fn rest_bytes(&self) -> Seq<u8> {
        self.input.spec_bytes().skip(self.cursor as int)
    }

    /// The whole text that the lexer was made on.
    pub closed spec fn text(&self) -> Seq<char> {
        self.input@
    }

    /// The cursor stands between two characters of the input.
    pub closed spec fn wf(&self) -> bool {
        is_char_boundary(self.input.spec_bytes(), self.cursor as int)
    }

    /// The unread bytes are the encoding of the unread text, and the cursor
    /// is the offset of the unread text.
    proof fn lemma_rest(&self)
        requires
            self.wf(),
        ensures
            valid_utf8(self.rest_bytes()),
            encode_utf8(self@.rest) == self.rest_bytes(),
            self@.offset() == self.cursor,
            self.cursor <= self.input.spec_bytes().len(),
            self@.total == self.input.spec_bytes().len(),
    {
        let bytes = self.input.spec_bytes();
        encode_utf8_valid_utf8(self.input@);
        if self.cursor != 0 {
            reveal_with_fuel(is_char_boundary, 1);
        }
        valid_utf8_split(bytes, self.cursor as int);
        assert(self.rest_bytes() =~= bytes.subrange(self.cursor as int, bytes.len() as int));
        decode_utf8_encode_utf8(self.rest_bytes());
    }

    /// The unread text is the end of the whole text, and the length that
    /// the view keeps is that of the whole text in bytes.
    pub proof fn lemma_unread_is_suffix(&self)
        requires
            self.wf(),
        ensures
            self@.rest.len() <= self.text().len(),
            self@.rest == self.text().skip(self.text().len() - self@.rest.len()),
            self@.total == encode_utf8(self.text()).len(),
            0 <= self@.offset() <= self@.total,
    {
        let bytes = self.input.spec_bytes();
        self.lemma_rest();
        encode_utf8_valid_utf8(self.input@);
        encode_utf8_decode_utf8(self.input@);
        decode_utf8_split(bytes, self.cursor as int);
        let read = decode_utf8(bytes.subrange(0, self.cursor as int));
        assert(self.rest_bytes() =~= bytes.subrange(self.cursor as int, bytes.len() as int));
        assert(self.input@ == read + self@.rest);
        assert(self@.rest =~= (read + self@.rest).skip(read.len() as int));
    }

    /// A lexer on `input` with both of its tokens read, or the first error
    /// met while reading them.
    pub fn new(input: &'a str) -> (made: Result<Lexer<'a>, LexError>)
        ensures
            match LexerView::primed(input@) {
                Ok(v) => made is Ok && made->Ok_0.wf() && made->Ok_0@ == v && made->Ok_0.text()
                    == input@,
                Err(e) => made == Err::<Lexer<'a>, LexError>(e),
            },
    {
        let mut lexer = Lexer {
            input,
            cursor: 0,
            current_token: Token::Error,
            next_token: Token::Error,
            ended: false,
        };
        proof {
            encode_utf8_valid_utf8(input@);
            encode_utf8_decode_utf8(input@);
            assert(input.spec_bytes().skip(0) =~= input.spec_bytes());
            assert(lexer@ == LexerView::start(input@));
        }
        match lexer.advance() {
            Ok(_) => {},
            Err(e) => {
                return Err(e);
            },
        }
        match lexer.advance() {
            Ok(_) => {},
            Err(e) => {
                return Err(e);
            },
        }
        Ok(lexer)
    }

    /// Whether the current token is the end of the input.
    pub fn at_eof(&self) -> (at_end: bool)
        ensures
            at_end == (self@.current is Eof),
    {
        match self.current_token {
            Token::Eof => true,
            _ => false,
        }
    }

    /// The current token, without reading on; `None` at the end of the input.
    pub fn peek_token(&self) -> (token: Option<Token<'a>>)
        ensures
            self@.current is Eof ==> token is None,
            !(self@.current is Eof) ==> token is Some && token->Some_0@ == self@.current,
    {
        match self.current_token {
            Token::Eof => None,
            token => Some(token),
        }
    }

    /// Hands out the current token and reads one more.  At the end of the
    /// input it hands out `None`, once: the lexer has then ended, and is not
    /// to be asked again.  Where the text to read holds an error, that is
    /// returned and nothing changes.
    pub fn next_token(&mut self) -> (res: Result<Option<Token<'a>>, LexError>)
        requires
            old(self).wf(),
            !old(self)@.ended,
        ensures
            final(self).wf(),
            final(self).text() == old(self).text(),
            old(self)@.current is Eof ==> res == Ok::<Option<Token<'a>>, LexError>(None) && final(
                self
            )@ == (LexerView { ended: true, ..old(self)@ }),
            !(old(self)@.current is Eof) ==> match old(self)@.shift() {
                Ok(v) => res is Ok && res->Ok_0 is Some && res->Ok_0->Some_0@ == old(self)@.current
                    && final(self)@ == v,
                Err(e) => res == Err::<Option<Token<'a>>, LexError>(e) && *final(self) == *old(
                    self
                ),
            },
    {
        if self.at_eof() {
            self.ended = true;
            return Ok(None);
        }
        match self.advance() {
            Ok(token) => Ok(Some(token)),
            Err(e) => Err(e),
        }
    }

    /// Whether the lexer has handed out the end of its input.
    pub fn has_ended(&self) -> (ended: bool)
        ensures
            ended == self@.ended,
    {
        self.ended
    }

    /// Reads the next token of the input into the window and returns the
    /// token that was current.  On an error nothing changes.
    ///
    /// Not to be called once the current token is `Eof`.
    fn advance(&mut self) -> (res: Result<Token<'a>, LexError>)
        requires
            old(self).wf(),
            !(old(self)@.current is Eof),
        ensures
            final(self).wf(),
            final(self).input == old(self).input,
            old(self).cursor <= final(self).cursor <= final(self).input.spec_bytes().len(),
            match old(self)@.shift() {
                Ok(v) => res is Ok && res->Ok_0@ == old(self)@.current && final(self)@ == v,
                Err(e) => res == Err::<Token<'a>, LexError>(e) && *final(self) == *old(self),
            },
    {
        let start = self.cursor;
        proof {
            self.lemma_rest();
        }
        self.skip_whitespace();
        proof {
            self.lemma_rest();
            lemma_run_len_props(old(self)@.rest, CharClass::Space);
        }
        let res = match first_char(self.remaining()) {
            None => Ok(self.push_token(Token::Eof)),
            Some(c) => {
                if is_letter(c) {
                    Ok(self.consume_identifier())
                } else if c == '"' || c == '\'' {
                    self.consume_string_literal(c)
                } else if is_digit(c) {
                    Ok(self.consume_number_literal())
                } else {
                    self.consume_op_or_symbol(c)
                }
            },
        };
        if res.is_err() {
            self.cursor = start;
        }
        proof {
            self.lemma_rest();
        }
        res
    }

    /// The text that has not been read yet.
    pub fn remaining(&self) -> (rest: &'a str)
        requires
            self.wf(),
        ensures
            rest@ == self@.rest,
            rest.spec_bytes() == self.rest_bytes(),
    {
        let (_, rest) = split_str(self.input, self.cursor);
        proof {
            encode_utf8_decode_utf8(rest@);
        }
        rest
    }

    /// Moves the cursor over `n` bytes of unread text, up to a point between
    /// two characters.
    fn bump(&mut self, n: usize)
        requires
            old(self).wf(),
            is_char_boundary(old(self).rest_bytes(), n as int),
        ensures
            final(self).wf(),
            final(self).input == old(self).input,
            final(self).current_token == old(self).current_token,
            final(self).next_token == old(self).next_token,
            final(self).ended == old(self).ended,
            final(self).cursor == old(self).cursor + n,
            final(self).rest_bytes() == old(self).rest_bytes().skip(n as int),
    {
        let total = self.input.as_bytes().len();
        proof {
            encode_utf8_valid_utf8(self.input@);
            lemma_boundary_in_suffix(self.input.spec_bytes(), self.cursor as int, n as int);
            assert(self.cursor + n <= total);
        }
        self.cursor = self.cursor + n;
    }

    /// Moves the cursor over the blanks at the start of the unread text.
    fn skip_whitespace(&mut self)
        requires
            old(self).wf(),
        ensures
            final(self).wf(),
            final(self).input == old(self).input,
            final(self).current_token == old(self).current_token,
            final(self).next_token == old(self).next_token,
            final(self).ended == old(self).ended,
            final(self).cursor == old(self).cursor + run_len(old(self)@.rest, CharClass::Space),
            final(self)@ == (LexerView {
                rest: old(self)@.rest.skip(run_len(old(self)@.rest, CharClass::Space) as int),
                ..old(self)@
            }),
    {
        let rest = self.remaining();
        let n = ascii_run(rest, CharClass::Space);
        proof {
            lemma_ascii_prefix(rest@, n as int);
            encode_utf8_decode_utf8(rest@.skip(n as int));
        }
        self.bump(n);
    }

    /// Reads the token that the single character `ch` stands for, which is
    /// the first unread character.  A character that stands for none is an
    /// error, and nothing changes.
    fn consume_op_or_symbol(&mut self, ch: char) -> (res: Result<Token<'a>, LexError>)
        requires
            old(self).wf(),
            old(self)@.rest.len() > 0,
            old(self)@.rest[0] == ch,
        ensures
            final(self).wf(),
            final(self).input == old(self).input,
            old(self).cursor <= final(self).cursor,
            match symbol_token(ch) {
                Some(t) => res is Ok && res->Ok_0@ == old(self)@.current && final(self)@ == (
                LexerView {
                    current: old(self)@.next,
                    next: t,
                    total: old(self)@.total,
                    rest: old(self)@.rest.skip(1),
                    ended: old(self)@.ended,
                }),
                None => res == Err::<Token<'a>, LexError>(
                    LexError::UnexpectedChar { ch, offset: old(self)@.offset() as usize },
                ) && *final(self) == *old(self),
            },
    {
        proof {
            self.lemma_rest();
        }
        match symbol(ch) {
            Some(token) => {
                proof {
                    lemma_first_char(self@.rest);
                    lemma_ascii_prefix(self@.rest, 1);
                    encode_utf8_decode_utf8(self@.rest.skip(1));
                }
                self.bump(1);
                Ok(self.push_token(token))
            },
            None => Err(LexError::UnexpectedChar { ch, offset: self.cursor }),
        }
    }

    /// Reads the word at the start of the unread text: a keyword or an
    /// identifier.
    fn consume_identifier(&mut self) -> (previous: Token<'a>)
        requires
            old(self).wf(),
        ensures
            final(self).wf(),
            final(self).input == old(self).input,
            old(self).cursor <= final(self).cursor,
            previous@ == old(self)@.current,
            final(self)@ == ({
                let n = run_len(old(self)@.rest, CharClass::Word) as int;
                LexerView {
                    current: old(self)@.next,
                    next: word_token(old(self)@.rest.take(n)),
                    total: old(self)@.total,
                    rest: old(self)@.rest.skip(n),
                    ended: old(self)@.ended,
                }
            }),
    {
        let rest = self.remaining();
        let ident_length = ascii_run(rest, CharClass::Word);
        let (ident, _) = split_ascii_prefix(rest, ident_length);
        let token = keyword_or_identifier(ident);
        proof {
            lemma_ascii_prefix(rest@, ident_length as int);
            encode_utf8_decode_utf8(rest@.skip(ident_length as int));
        }
        self.bump(ident_length);
        self.push_token(token)
    }

    /// Reads the string literal at the start of the unread text, whose
    /// opening quote is `delim`.  The literal runs up to the next `delim`;
    /// where there is none, that is an error, and nothing changes.
    fn consume_string_literal(&mut self, delim: char) -> (res: Result<Token<'a>, LexError>)
        requires
            old(self).wf(),
            old(self)@.rest.len() > 0,
            old(self)@.rest[0] == delim,
            is_quote_char(delim),
        ensures
            final(self).wf(),
            final(self).input == old(self).input,
            old(self).cursor <= final(self).cursor,
            ({
                let body = old(self)@.rest.skip(1);
                let n = run_len(body, CharClass::Except(delim)) as int;
                if n == body.len() {
                    res == Err::<Token<'a>, LexError>(
                        LexError::UnterminatedString {
                            delimiter: delim,
                            offset: old(self)@.offset() as usize,
                        },
                    ) && *final(self) == *old(self)
                } else {
                    res is Ok && res->Ok_0@ == old(self)@.current && final(self)@ == (LexerView {
                        current: old(self)@.next,
                        next: TokenView::String(body.take(n)),
                        total: old(self)@.total,
                        rest: body.skip(n + 1),
                        ended: old(self)@.ended,
                    })
                }
            }),
    {
        let rest = self.remaining();
        proof {
            self.lemma_rest();
            lemma_first_char(rest@);
        }
        let (_, body) = split_ascii_prefix(rest, 1);
        let quote: u8 = if delim == '"' {
            0x22
        } else {
            0x27
        };
        assert(quote as char == delim);
        proof {
            lemma_ascii_byte_absent(body@, quote);
        }
        match find_byte(body, quote) {
            None => {
                proof {
                    assert(body.spec_bytes() == encode_utf8(body@));
                    assert forall|i: int| 0 <= i < encode_utf8(body@).len() implies #[trigger] encode_utf8(
                        body@,
                    )[i] != quote by {
                        assert(body.spec_bytes()[i] != quote);
                    }
                    assert forall|j: int| 0 <= j < body@.len() implies CharClass::Except(
                        delim,
                    ).admits(#[trigger] body@[j]) by {
                        assert(body@[j] != quote as char);
                    }
                    lemma_run_len_is(body@, CharClass::Except(delim), body@.len() as int);
                }
                Err(LexError::UnterminatedString { delimiter: delim, offset: self.cursor })
            },
            Some(string_length) => {
                proof {
                    encode_utf8_valid_utf8(body@);
                    is_char_boundary_iff_not_is_continuation_byte(
                        body.spec_bytes(),
                        string_length as int,
                    );
                }
                let (literal, closing) = split_str(body, string_length);
                proof {
                    let n = literal@.len() as int;
                    lemma_ascii_byte_absent(literal@, quote);
                    lemma_empty_encoding(closing@);
                    lemma_first_char(closing@);
                    assert(body@ == literal@ + closing@);
                    assert(body@[n] == closing@[0]);
                    assert forall|j: int| 0 <= j < n implies CharClass::Except(delim).admits(
                        #[trigger] body@[j],
                    ) by {
                        assert(body@[j] == literal@[j]);
                    }
                    lemma_run_len_is(body@, CharClass::Except(delim), n);
                    assert(body@.take(n) =~= literal@);
                    assert(body@.skip(n) =~= closing@);
                    assert(body@.skip(n + 1) =~= closing@.skip(1));
                    // The three steps of the cursor: the opening quote, the
                    // literal, the closing quote.
                    lemma_ascii_prefix(rest@, 1);
                    lemma_ascii_prefix(closing@, 1);
                    encode_utf8_decode_utf8(closing@.skip(1));
                }
                self.bump(1);
                self.bump(string_length);
                self.bump(1);
                Ok(self.push_token(Token::String(literal)))
            },
        }
    }

    /// Reads the number at the start of the unread text: its longest run of
    /// digits.
    fn consume_number_literal(&mut self) -> (previous: Token<'a>)
        requires
            old(self).wf(),
        ensures
            final(self).wf(),
            final(self).input == old(self).input,
            old(self).cursor <= final(self).cursor,
            previous@ == old(self)@.current,
            final(self)@ == ({
                let n = run_len(old(self)@.rest, CharClass::Digit) as int;
                LexerView {
                    current: old(self)@.next,
                    next: TokenView::Number(old(self)@.rest.take(n)),
                    total: old(self)@.total,
                    rest: old(self)@.rest.skip(n),
                    ended: old(self)@.ended,
                }
            }),
    {
        let rest = self.remaining();
        let number_len = ascii_run(rest, CharClass::Digit);
        let (digits, _) = split_ascii_prefix(rest, number_len);
        proof {
            lemma_ascii_prefix(rest@, number_len as int);
            encode_utf8_decode_utf8(rest@.skip(number_len as int));
        }
        self.bump(number_len);
        self.push_token(Token::Number(digits))
    }

    /// Hands out all the tokens up to the end of the input, the current one
    /// first.  Stops at the first error, with the lexer left where the error
    /// stands.
    pub fn collect_tokens(&mut self) -> (res: Result<Vec<Token<'a>>, LexError>)
        requires
            old(self).wf(),
        ensures
            final(self).wf(),
            final(self).text() == old(self).text(),
            final(self)@.ended == old(self)@.ended,
            match old(self)@.stream() {
                Ok(tokens) => res is Ok && token_views(res->Ok_0@) == tokens && final(self)@.current is Eof,
                Err(e) => res == Err::<Vec<Token<'a>>, LexError>(e) && final(self)@.shift() == Err::<
                    LexerView,
                    LexError,
                >(e),
            },
    {
        let mut tokens: Vec<Token<'a>> = Vec::new();
        assert(token_views(tokens@) =~= Seq::empty());
        assert(with_prefix(token_views(tokens@), self@.stream()) =~= self@.stream());
        while !self.at_eof()
            invariant
                self.wf(),
                self.input == old(self).input,
                self@.ended == old(self)@.ended,
                with_prefix(token_views(tokens@), self@.stream()) == old(self)@.stream(),
            decreases self@.fuel(),
        {
            proof {
                lemma_shift_fuel(self@);
            }
            let ghost before = self@;
            let ghost collected = token_views(tokens@);
            match self.advance() {
                Ok(token) => {
                    tokens.push(token);
                    proof {
                        assert(token_views(tokens@) =~= collected + seq![before.current]);
                        match self@.stream() {
                            Ok(tail) => {
                                assert((collected + seq![before.current]) + tail =~= collected + (
                                seq![before.current] + tail));
                            },
                            Err(e) => {},
                        }
                    }
                },
                Err(e) => {
                    return Err(e);
                },
            }
        }
        proof {
            assert(token_views(tokens@) + Seq::<TokenView>::empty() =~= token_views(tokens@));
        }
        Ok(tokens)
    }

    /// Puts `token` behind the two tokens in hand and returns the first of
    /// them: the token after the current one becomes the current one.
    fn push_token(&mut self, token: Token<'a>) -> (previous: Token<'a>)
        ensures
            final(self).input == old(self).input,
            final(self).cursor == old(self).cursor,
            previous == old(self).current_token,
            previous@ == old(self)@.current,
            final(self).wf() == old(self).wf(),
            final(self).rest_bytes() == old(self).rest_bytes(),
            final(self)@ == (LexerView { current: old(self)@.next, next: token@, ..old(self)@ }),
    {
        let previous = self.current_token;
        self.current_token = self.next_token;
        self.next_token = token;
        previous
    }
}

} // verus!
