//! Rows, their fixed binary layout, and the paged table that holds them.
//!
//! A row is stored as three fields, each behind its length as eight
//! little-endian bytes: the id (eight little-endian bytes), the username
//! (its UTF-8 bytes, padded with zeros to 32 bytes) and the email (the same,
//! to 255 bytes).  The lengths are those of the padded fields, so every row
//! takes `ROW_SIZE` bytes, and a page holds a whole number of rows.

use crate::error::{CapacityError, CodecError, Field};
use crate::text::{lemma_ascii_byte_absent};
use vstd::bytes::*;
use vstd::prelude::*;
use vstd::slice::*;
use vstd::string::*;
use vstd::utf8::*;

verus! {

/// Bytes in front of each field that give its length.
pub const LENGTH_PREFIX_SIZE: usize = 8;

/// Bytes of the id.
pub const ID_SIZE: usize = 8;

/// Bytes of the username column.
pub const COLUMN_USERNAME_SIZE: usize = 32;

/// Bytes of the email column.
pub const COLUMN_EMAIL_SIZE: usize = 255;

/// Bytes of one encoded row.
pub const ROW_SIZE: usize = 319;

/// Bytes of one page.
pub const PAGE_SIZE: usize = 4096;

/// Pages a table can hold.
pub const TABLE_MAX_PAGES: usize = 100;

/// Rows on one page.
pub const ROWS_PER_PAGE: usize = 12;

/// Rows a table can hold.
pub const TABLE_MAX_ROWS: usize = 1200;

/// The sizes fit together: a row is its three fields with their lengths, a
/// page holds as many whole rows as fit, a table as many as its pages hold.
pub proof fn lemma_sizes()
    ensures
        ROW_SIZE == 3 * LENGTH_PREFIX_SIZE + ID_SIZE + COLUMN_USERNAME_SIZE + COLUMN_EMAIL_SIZE,
        ROWS_PER_PAGE == PAGE_SIZE / ROW_SIZE,
        TABLE_MAX_ROWS == ROWS_PER_PAGE * TABLE_MAX_PAGES,
{
}

/// One record of the table.
#[derive(Debug, PartialEq, Eq)]
pub struct Row {
    id: u64,
    username: String,
    email: String,
}

/// A row with its texts as sequences of characters.
#[verifier::ext_equal]
pub struct RowView {
    pub id: u64,
    pub username: Seq<char>,
    pub email: Seq<char>,
}

impl RowView {
    /// Whether both texts fit their columns.
    pub open spec fn fits(self) -> bool {
        encode_utf8(self.username).len() <= COLUMN_USERNAME_SIZE && encode_utf8(self.email).len()
            <= COLUMN_EMAIL_SIZE
    }

    /// Whether neither text holds the character NUL.
    pub open spec fn nul_free(self) -> bool {
        (forall|i: int| 0 <= i < self.username.len() ==> #[trigger] self.username[i] != '\0') && (
        forall|i: int| 0 <= i < self.email.len() ==> #[trigger] self.email[i] != '\0')
    }
}

impl View for Row {
    type V = RowView;

    closed spec fn view(&self) -> RowView {
        RowView { id: self.id, username: self.username@, email: self.email@ }
    }
}

/// `n` zero bytes.
pub open spec fn zeros(n: nat) -> Seq<u8> {
    Seq::new(n, |i: int| 0u8)
}

/// `text` filled up with zeros to `capacity` bytes.
pub open spec fn padded(text: Seq<u8>, capacity: nat) -> Seq<u8> {
    text + zeros((capacity - text.len()) as nat)
}

/// A field as it is stored: its length, then its bytes.
pub open spec fn encode_field(payload: Seq<u8>) -> Seq<u8> {
    spec_u64_to_le_bytes(payload.len() as u64) + payload
}

/// A row as it is stored.
pub open spec fn encode_row(row: RowView) -> Seq<u8> {
    encode_field(spec_u64_to_le_bytes(row.id)) + encode_field(
        padded(encode_utf8(row.username), COLUMN_USERNAME_SIZE as nat),
    ) + encode_field(padded(encode_utf8(row.email), COLUMN_EMAIL_SIZE as nat))
}

/// The number of bytes of `field` before its first zero byte.
pub open spec fn text_len(field: Seq<u8>) -> nat
    decreases field.len(),
{
    if field.len() > 0 && field[0] != 0 {
        1 + text_len(field.drop_first())
    } else {
        0
    }
}

/// The bytes of `field` before its first zero byte.
pub open spec fn until_nul(field: Seq<u8>) -> Seq<u8> {
    field.take(text_len(field) as int)
}

/// The row that `data` starts with, and the bytes behind it.
pub open spec fn decode_row(data: Seq<u8>) -> Result<(RowView, Seq<u8>), CodecError> {
    if data.len() < ROW_SIZE {
        Err(CodecError::Truncated)
    } else {
        let username = until_nul(data.subrange(24, 56));
        let email = until_nul(data.subrange(64, 319));
        if spec_u64_from_le_bytes(data.subrange(0, 8)) != ID_SIZE {
            Err(CodecError::BadLengthPrefix { field: Field::Id })
        } else if spec_u64_from_le_bytes(data.subrange(16, 24)) != COLUMN_USERNAME_SIZE {
            Err(CodecError::BadLengthPrefix { field: Field::Username })
        } else if !valid_utf8(username) {
            Err(CodecError::InvalidText { field: Field::Username })
        } else if spec_u64_from_le_bytes(data.subrange(56, 64)) != COLUMN_EMAIL_SIZE {
            Err(CodecError::BadLengthPrefix { field: Field::Email })
        } else if !valid_utf8(email) {
            Err(CodecError::InvalidText { field: Field::Email })
        } else {
            Ok(
                (
                    RowView {
                        id: spec_u64_from_le_bytes(data.subrange(8, 16)),
                        username: decode_utf8(username),
                        email: decode_utf8(email),
                    },
                    data.skip(ROW_SIZE as int),
                ),
            )
        }
    }
}

/// The run before the first zero has the length that has its properties.
pub proof fn lemma_text_len_is(field: Seq<u8>, n: int)
    requires
        0 <= n <= field.len(),
        forall|i: int| 0 <= i < n ==> #[trigger] field[i] != 0,
        n < field.len() ==> field[n] == 0,
    ensures
        text_len(field) == n,
    decreases n,
{
    if n > 0 {
        let t = field.drop_first();
        assert(field[0] != 0);
        assert forall|i: int| 0 <= i < n - 1 implies #[trigger] t[i] != 0 by {
            assert(t[i] == field[i + 1]);
        }
        if n - 1 < t.len() {
            assert(t[n - 1] == field[n]);
        }
        lemma_text_len_is(t, n - 1);
    }
}

/// A text without NUL that fits its column is read back from the padded
/// column as it was written.
pub proof fn lemma_padded_text(text: Seq<char>, capacity: nat)
    requires
        encode_utf8(text).len() <= capacity,
        forall|i: int| 0 <= i < text.len() ==> #[trigger] text[i] != '\0',
    ensures
        padded(encode_utf8(text), capacity).len() == capacity,
        until_nul(padded(encode_utf8(text), capacity)) == encode_utf8(text),
        valid_utf8(encode_utf8(text)),
        decode_utf8(encode_utf8(text)) == text,
{
    let bytes = encode_utf8(text);
    let field = padded(bytes, capacity);
    lemma_ascii_byte_absent(text, 0u8);
    assert forall|k: int| 0 <= k < text.len() implies #[trigger] text[k] != 0u8 as char by {}
    assert forall|i: int| 0 <= i < bytes.len() implies #[trigger] field[i] != 0 by {
        assert(field[i] == bytes[i]);
    }
    lemma_text_len_is(field, bytes.len() as int);
    assert(field.take(bytes.len() as int) =~= bytes);
    encode_utf8_valid_utf8(text);
    encode_utf8_decode_utf8(text);
}

/// An encoded row takes `ROW_SIZE` bytes, laid out field by field.
pub proof fn lemma_encode_row_layout(row: RowView)
    requires
        row.fits(),
    ensures
        encode_row(row).len() == ROW_SIZE,
        encode_row(row).subrange(0, 8) == spec_u64_to_le_bytes(ID_SIZE as u64),
        encode_row(row).subrange(8, 16) == spec_u64_to_le_bytes(row.id),
        encode_row(row).subrange(16, 24) == spec_u64_to_le_bytes(COLUMN_USERNAME_SIZE as u64),
        encode_row(row).subrange(24, 56) == padded(
            encode_utf8(row.username),
            COLUMN_USERNAME_SIZE as nat,
        ),
        encode_row(row).subrange(56, 64) == spec_u64_to_le_bytes(COLUMN_EMAIL_SIZE as u64),
        encode_row(row).subrange(64, 319) == padded(
            encode_utf8(row.email),
            COLUMN_EMAIL_SIZE as nat,
        ),
{
    lemma_auto_spec_u64_to_from_le_bytes();
    let e = encode_row(row);
    let id = spec_u64_to_le_bytes(row.id);
    let username = padded(encode_utf8(row.username), COLUMN_USERNAME_SIZE as nat);
    let email = padded(encode_utf8(row.email), COLUMN_EMAIL_SIZE as nat);
    assert(id.len() == 8);
    assert(username.len() == 32);
    assert(email.len() == 255);
    assert(spec_u64_to_le_bytes(8u64).len() == 8);
    assert(spec_u64_to_le_bytes(32u64).len() == 8);
    assert(spec_u64_to_le_bytes(255u64).len() == 8);
    assert(e.len() == 319);
    assert(e.subrange(0, 8) =~= spec_u64_to_le_bytes(8u64));
    assert(e.subrange(8, 16) =~= id);
    assert(e.subrange(16, 24) =~= spec_u64_to_le_bytes(32u64));
    assert(e.subrange(24, 56) =~= username);
    assert(e.subrange(56, 64) =~= spec_u64_to_le_bytes(255u64));
    assert(e.subrange(64, 319) =~= email);
}

/// Writing a row and reading it back gives the row again, and behind it
/// whatever stood behind the row: for every row whose texts fit their
/// columns and hold no NUL.
pub proof fn lemma_round_trip(row: RowView, tail: Seq<u8>)
    requires
        row.fits(),
        row.nul_free(),
    ensures
        decode_row(encode_row(row) + tail) == Ok::<(RowView, Seq<u8>), CodecError>((row, tail)),
{
    let e = encode_row(row);
    let data = e + tail;
    lemma_encode_row_layout(row);
    lemma_auto_spec_u64_to_from_le_bytes();
    lemma_padded_text(row.username, COLUMN_USERNAME_SIZE as nat);
    lemma_padded_text(row.email, COLUMN_EMAIL_SIZE as nat);
    assert(data.subrange(0, 8) =~= e.subrange(0, 8));
    assert(data.subrange(8, 16) =~= e.subrange(8, 16));
    assert(data.subrange(16, 24) =~= e.subrange(16, 24));
    assert(data.subrange(24, 56) =~= e.subrange(24, 56));
    assert(data.subrange(56, 64) =~= e.subrange(56, 64));
    assert(data.subrange(64, 319) =~= e.subrange(64, 319));
    assert(data.skip(ROW_SIZE as int) =~= tail);
    let decoded = decode_row(data);
    assert(decoded is Ok);
    assert(decoded->Ok_0.0 =~= row);
}

/// Why a row cannot be written into a buffer of `room` bytes, if it cannot.
pub open spec fn serialize_refusal(row: RowView, room: nat) -> Option<CapacityError> {
    if encode_utf8(row.username).len() > COLUMN_USERNAME_SIZE {
        Some(CapacityError::UsernameTooLong)
    } else if encode_utf8(row.email).len() > COLUMN_EMAIL_SIZE {
        Some(CapacityError::EmailTooLong)
    } else if room < ROW_SIZE {
        Some(CapacityError::DestinationTooSmall)
    } else {
        None
    }
}

/// Copies `src` into `dest`, from position `at` on.
fn write_at(dest: &mut [u8], at: usize, src: &[u8])
    requires
        at + src@.len() <= old(dest)@.len(),
    ensures
        final(dest)@ == old(dest)@.take(at as int) + src@ + old(dest)@.skip(at + src@.len()),
{
    let room = dest.len();
    let mut i: usize = 0;
    assert(dest@ =~= old(dest)@.take(at as int) + src@.take(0) + old(dest)@.skip(at + 0));
    while i < src.len()
        invariant
            i <= src@.len(),
            at + src@.len() <= dest@.len(),
            dest@.len() == old(dest)@.len(),
            dest@.len() == room,
            dest@ == old(dest)@.take(at as int) + src@.take(i as int) + old(dest)@.skip(at + i),
        decreases src@.len() - i,
    {
        dest[at + i] = src[i];
        i += 1;
        assert(dest@ =~= old(dest)@.take(at as int) + src@.take(i as int) + old(dest)@.skip(
            at + i,
        ));
    }
    assert(src@.take(i as int) =~= src@);
}

/// Sets the bytes of `dest` from position `from` up to `to` to zero.
fn write_zeros(dest: &mut [u8], from: usize, to: usize)
    requires
        from <= to <= old(dest)@.len(),
    ensures
        final(dest)@ == old(dest)@.take(from as int) + zeros((to - from) as nat) + old(dest)@.skip(
            to as int,
        ),
{
    let mut i: usize = from;
    assert(dest@ =~= old(dest)@.take(from as int) + zeros(0) + old(dest)@.skip(from as int));
    while i < to
        invariant
            from <= i <= to,
            to <= dest@.len(),
            dest@.len() == old(dest)@.len(),
            dest@ == old(dest)@.take(from as int) + zeros((i - from) as nat) + old(dest)@.skip(
                i as int,
            ),
        decreases to - i,
    {
        dest[i] = 0;
        i += 1;
        assert(dest@ =~= old(dest)@.take(from as int) + zeros((i - from) as nat) + old(dest)@.skip(
            i as int,
        ));
    }
}

/// The text in `data` before its first zero byte, if that is UTF-8.
pub fn read_null_terminated_str(data: &[u8]) -> (text: Option<&str>)
    ensures
        text is Some <==> valid_utf8(until_nul(data@)),
        text matches Some(s) ==> s.spec_bytes() == until_nul(data@) && s@ == decode_utf8(
            until_nul(data@),
        ),
{
    let mut null_pos: usize = 0;
    while null_pos < data.len() && data[null_pos] != 0
        invariant
            null_pos <= data@.len(),
            forall|i: int| 0 <= i < null_pos ==> #[trigger] data@[i] != 0,
        decreases data@.len() - null_pos,
    {
        null_pos += 1;
    }
    proof {
        lemma_text_len_is(data@, null_pos as int);
        assert(data@.subrange(0, null_pos as int) =~= until_nul(data@));
    }
    match core::str::from_utf8(slice_subrange(data, 0, null_pos)) {
        Ok(s) => {
            proof {
                encode_utf8_decode_utf8(s@);
            }
            Some(s)
        },
        Err(_) => None,
    }
}

impl Row {
    /// A row of the three given values.
    pub fn new(id: u64, username: String, email: String) -> (row: Row)
        ensures
            row@ == (RowView { id, username: username@, email: email@ }),
    {
        Row { id, username, email }
    }

    /// The id of the row.
    pub fn id(&self) -> (id: u64)
        ensures
            id == self@.id,
    {
        self.id
    }

    /// The username of the row.
    pub fn username(&self) -> (username: &str)
        ensures
            username@ == self@.username,
    {
        self.username.as_str()
    }

    /// The email of the row.
    pub fn email(&self) -> (email: &str)
        ensures
            email@ == self@.email,
    {
        self.email.as_str()
    }

    /// Whether the texts of the row fit their columns; if not, which one
    /// does not.
    pub fn check_capacity(&self) -> (res: Result<(), CapacityError>)
        ensures
            res == (match serialize_refusal(self@, ROW_SIZE as nat) {
                Some(e) => Err::<(), CapacityError>(e),
                None => Ok::<(), CapacityError>(()),
            }),
    {
        if self.username.as_str().as_bytes().len() > COLUMN_USERNAME_SIZE {
            Err(CapacityError::UsernameTooLong)
        } else if self.email.as_str().as_bytes().len() > COLUMN_EMAIL_SIZE {
            Err(CapacityError::EmailTooLong)
        } else {
            Ok(())
        }
    }

    /// Writes the row into the first `ROW_SIZE` bytes of `dest` and returns
    /// the number of bytes written.  A row that does not fit its columns, or
    /// a `dest` that is too short, is refused and `dest` left as it was.
    pub fn serialize(&self, dest: &mut [u8]) -> (res: Result<usize, CapacityError>)
        ensures
            match serialize_refusal(self@, old(dest)@.len()) {
                Some(e) => res == Err::<usize, CapacityError>(e) && final(dest)@ == old(dest)@,
                None => res == Ok::<usize, CapacityError>(ROW_SIZE) && final(dest)@ == encode_row(
                    self@,
                ) + old(dest)@.skip(ROW_SIZE as int),
            },
    {
        let username = self.username.as_str().as_bytes();
        let email = self.email.as_str().as_bytes();
        if username.len() > COLUMN_USERNAME_SIZE {
            return Err(CapacityError::UsernameTooLong);
        }
        if email.len() > COLUMN_EMAIL_SIZE {
            return Err(CapacityError::EmailTooLong);
        }
        if dest.len() < ROW_SIZE {
            return Err(CapacityError::DestinationTooSmall);
        }
        let id_len = u64_to_le_bytes(ID_SIZE as u64);
        let id_bytes = u64_to_le_bytes(self.id);
        let username_len = u64_to_le_bytes(COLUMN_USERNAME_SIZE as u64);
        let email_len = u64_to_le_bytes(COLUMN_EMAIL_SIZE as u64);

        write_at(dest, 0, id_len.as_slice());
        write_at(dest, 8, id_bytes.as_slice());
        write_at(dest, 16, username_len.as_slice());
        write_at(dest, 24, username);
        write_zeros(dest, 24 + username.len(), 56);
        write_at(dest, 56, email_len.as_slice());
        write_at(dest, 64, email);
        write_zeros(dest, 64 + email.len(), ROW_SIZE);
        proof {
            lemma_encode_row_layout(self@);
            let e = encode_row(self@);
            assert(dest@.len() == old(dest)@.len());
            assert(dest@ =~= e + old(dest)@.skip(ROW_SIZE as int));
        }
        Ok(ROW_SIZE)
    }

    /// Reads the row that `data` starts with, and returns it with the bytes
    /// behind it.
    pub fn deserialize(data: &[u8]) -> (res: Result<(Row, &[u8]), CodecError>)
        ensures
            match decode_row(data@) {
                Ok((row, rest)) => res is Ok && res->Ok_0.0@ == row && res->Ok_0.1@ == rest,
                Err(e) => res == Err::<(Row, &[u8]), CodecError>(e),
            },
    {
        broadcast use vstd::string::group_string_axioms;

        if data.len() < ROW_SIZE {
            return Err(CodecError::Truncated);
        }
        let id_len = u64_from_le_bytes(slice_subrange(data, 0, 8));
        if id_len != ID_SIZE as u64 {
            return Err(CodecError::BadLengthPrefix { field: Field::Id });
        }
        let id = u64_from_le_bytes(slice_subrange(data, 8, 16));

        let username_len = u64_from_le_bytes(slice_subrange(data, 16, 24));
        if username_len != COLUMN_USERNAME_SIZE as u64 {
            return Err(CodecError::BadLengthPrefix { field: Field::Username });
        }
        let username = match read_null_terminated_str(slice_subrange(data, 24, 56)) {
            Some(text) => text,
            None => {
                return Err(CodecError::InvalidText { field: Field::Username });
            },
        };

        let email_len = u64_from_le_bytes(slice_subrange(data, 56, 64));
        if email_len != COLUMN_EMAIL_SIZE as u64 {
            return Err(CodecError::BadLengthPrefix { field: Field::Email });
        }
        let email = match read_null_terminated_str(slice_subrange(data, 64, ROW_SIZE)) {
            Some(text) => text,
            None => {
                return Err(CodecError::InvalidText { field: Field::Email });
            },
        };

        let row = Row::new(id, username.to_string(), email.to_string());
        let rest = slice_subrange(data, ROW_SIZE, data.len());
        proof {
            assert(rest@ =~= data@.skip(ROW_SIZE as int));
        }
        Ok((row, rest))
    }
}

/// A block of `PAGE_SIZE` bytes that holds encoded rows side by side.
#[derive(Debug)]
pub struct Page {
    data: Vec<u8>,
}

impl View for Page {
    type V = Seq<u8>;

    closed spec fn view(&self) -> Seq<u8> {
        self.data@
    }
}

impl Page {
    /// The `ROW_SIZE` bytes of the page from `byte_offset` on, to write
    /// into.
    fn window(&mut self, byte_offset: usize) -> (slot: &mut [u8])
        requires
            old(self)@.len() == PAGE_SIZE,
            byte_offset + ROW_SIZE <= PAGE_SIZE,
        ensures
            slot@ == old(self)@.subrange(byte_offset as int, byte_offset + ROW_SIZE),
            final(self)@ == old(self)@.take(byte_offset as int) + final(slot)@ + old(self)@.skip(
                byte_offset + ROW_SIZE,
            ),
    {
        let ghost before = self.data@;
        let (head, tail) = self.data.as_mut_slice().split_at_mut(byte_offset);
        let (slot, rest) = tail.split_at_mut(ROW_SIZE);
        proof {
            assert(slot@ =~= before.subrange(byte_offset as int, byte_offset + ROW_SIZE));
            assert(head@ =~= before.take(byte_offset as int));
            assert(rest@ =~= before.skip(byte_offset + ROW_SIZE));
            assert(head@ + (final(slot)@ + rest@) =~= before.take(byte_offset as int) + final(
                slot
            )@ + before.skip(byte_offset + ROW_SIZE));
        }
        slot
    }

    /// A page of zeros.
    pub fn empty() -> (page: Page)
        ensures
            page@ == zeros(PAGE_SIZE as nat),
    {
        let data = vec![0u8; PAGE_SIZE];
        assert(data@ =~= zeros(PAGE_SIZE as nat));
        Page { data }
    }
}

/// The page that the row `row_num` lies on.
pub open spec fn page_index(row_num: int) -> int {
    row_num / (ROWS_PER_PAGE as int)
}

/// The offset in its page at which the row `row_num` begins.
pub open spec fn byte_offset(row_num: int) -> int {
    (row_num % (ROWS_PER_PAGE as int)) * ROW_SIZE
}

/// A table as a number of rows and a sequence of pages, of which those that
/// were never written to are absent.
#[verifier::ext_equal]
pub struct TableView {
    pub num_rows: nat,
    pub pages: Seq<Option<Seq<u8>>>,
}

impl TableView {
    /// The table has all its page slots, every page in it has its full
    /// size, and the number of rows is within what the pages can hold.
    pub open spec fn wf(self) -> bool {
        &&& self.pages.len() == TABLE_MAX_PAGES
        &&& self.num_rows <= TABLE_MAX_ROWS
        &&& forall|i: int|
            0 <= i < self.pages.len() ==> (#[trigger] self.pages[i]) is Some ==> self.pages[i]->0.len()
                == PAGE_SIZE
    }

    /// The bytes of page `i`; an absent page reads as zeros.
    pub open spec fn page(self, i: int) -> Seq<u8> {
        match self.pages[i] {
            Some(bytes) => bytes,
            None => zeros(PAGE_SIZE as nat),
        }
    }

    /// The bytes in the slot of row `row_num`.
    pub open spec fn slot(self, row_num: int) -> Seq<u8> {
        self.page(page_index(row_num)).subrange(
            byte_offset(row_num),
            byte_offset(row_num) + ROW_SIZE,
        )
    }

    /// The table with `bytes` in the slot of row `row_num`, and with the
    /// page of that slot present.
    pub open spec fn with_slot(self, row_num: int, bytes: Seq<u8>) -> TableView {
        let page = self.page(page_index(row_num));
        TableView {
            num_rows: self.num_rows,
            pages: self.pages.update(
                page_index(row_num),
                Some(
                    page.take(byte_offset(row_num)) + bytes + page.skip(
                        byte_offset(row_num) + ROW_SIZE,
                    ),
                ),
            ),
        }
    }

    /// The table after `row` is appended to it, or the reason why it cannot
    /// be.
    pub open spec fn insert(self, row: RowView) -> Result<TableView, CapacityError> {
        if encode_utf8(row.username).len() > COLUMN_USERNAME_SIZE {
            Err(CapacityError::UsernameTooLong)
        } else if encode_utf8(row.email).len() > COLUMN_EMAIL_SIZE {
            Err(CapacityError::EmailTooLong)
        } else if self.num_rows >= TABLE_MAX_ROWS {
            Err(CapacityError::TableFull)
        } else {
            Ok(
                TableView {
                    num_rows: self.num_rows + 1,
                    ..self.with_slot(self.num_rows as int, encode_row(row))
                },
            )
        }
    }
}

/// The bytes of a page slot, if there is a page in it.
pub open spec fn page_view(slot: Option<Page>) -> Option<Seq<u8>> {
    match slot {
        Some(page) => Some(page@),
        None => None,
    }
}

/// The rows of one table: a fixed number of page slots, of which a page is
/// made when a row is first written to it.
#[derive(Debug)]
pub struct Table {
    num_rows: usize,
    pages: Vec<Option<Page>>,
}

impl View for Table {
    type V = TableView;

    closed spec fn view(&self) -> TableView {
        TableView {
            num_rows: self.num_rows as nat,
            pages: Seq::new(self.pages@.len(), |i: int| page_view(self.pages@[i])),
        }
    }
}

impl Table {
    /// A table without rows and without pages.
    pub fn new() -> (table: Table)
        ensures
            table@.wf(),
            table@.num_rows == 0,
            forall|i: int| 0 <= i < TABLE_MAX_PAGES ==> (#[trigger] table@.pages[i]) is None,
    {
        let mut pages: Vec<Option<Page>> = Vec::new();
        let mut i: usize = 0;
        while i < TABLE_MAX_PAGES
            invariant
                i <= TABLE_MAX_PAGES,
                pages@.len() == i,
                forall|j: int| 0 <= j < i ==> (#[trigger] pages@[j]) is None,
            decreases TABLE_MAX_PAGES - i,
        {
            pages.push(None);
            i += 1;
        }
        Table { num_rows: 0, pages }
    }

    /// The number of rows in the table.
    pub fn num_rows(&self) -> (n: usize)
        ensures
            n == self@.num_rows,
    {
        self.num_rows
    }

    /// Where row `row_num` lies: the number of its page, and the offset in
    /// that page at which it begins.
    pub fn locate(row_num: usize) -> (place: (usize, usize))
        ensures
            place.0 == page_index(row_num as int),
            place.1 == byte_offset(row_num as int),
            place.0 < TABLE_MAX_PAGES <==> row_num < TABLE_MAX_ROWS,
            place.1 + ROW_SIZE <= PAGE_SIZE,
    {
        let page_num = row_num / ROWS_PER_PAGE;

        // Find the row offset inside the page data
        let row_offset = row_num % ROWS_PER_PAGE;
        let byte_offset = row_offset * ROW_SIZE;
        (page_num, byte_offset)
    }

    /// The slot of row `row_num`, to write into.  The page of the slot is
    /// made if it is absent.  A row number beyond the last page is refused,
    /// and the table left as it was.
    pub fn row_slot_mut(&mut self, row_num: usize) -> (res: Result<&mut [u8], CapacityError>)
        requires
            old(self)@.wf(),
        ensures
            row_num >= TABLE_MAX_ROWS ==> res is Err && res->Err_0 == CapacityError::TableFull
                && final(self)@ == old(self)@,
            row_num < TABLE_MAX_ROWS ==> res is Ok && res->Ok_0@ == old(self)@.slot(row_num as int)
                && final(self)@ == old(self)@.with_slot(row_num as int, final(res->Ok_0)@),
            row_num < TABLE_MAX_ROWS && final(res->Ok_0)@.len() == ROW_SIZE ==> final(self)@.wf(),
    {
        if row_num >= TABLE_MAX_ROWS {
            return Err(CapacityError::TableFull);
        }
        let (page_num, byte_offset) = Table::locate(row_num);
        self.check_slot(page_num);
        proof {
            assert(self@.pages[page_num as int] == page_view(self.pages@[page_num as int]));
            assert forall|i: int| 0 <= i < TABLE_MAX_PAGES && i != page_num implies page_view(
                #[trigger] self.pages@[i],
            ) == old(self)@.pages[i] by {
                assert(self@.pages[i] == page_view(self.pages@[i]));
            }
        }
        let page = self.pages[page_num].as_mut().unwrap();
        Ok(page.window(byte_offset))
    }

    /// The slot of row `row_num`, to read from, if its page is there.
    pub fn row_slot(&self, row_num: usize) -> (slot: Option<&[u8]>)
        requires
            self@.wf(),
        ensures
            slot is Some <==> row_num < TABLE_MAX_ROWS && self@.pages[page_index(row_num as int)] is Some,
            slot matches Some(bytes) ==> bytes@ == self@.slot(row_num as int),
    {
        if row_num >= TABLE_MAX_ROWS {
            return None;
        }
        let (page_num, byte_offset) = Table::locate(row_num);
        proof {
            assert(self@.pages[page_num as int] == page_view(self.pages@[page_num as int]));
        }
        match &self.pages[page_num] {
            Some(page) => Some(
                slice_subrange(page.data.as_slice(), byte_offset, byte_offset + ROW_SIZE),
            ),
            None => None,
        }
    }

    /// Appends `row` to the table: writes it into the slot behind the last
    /// row and counts it.  A row that does not fit its columns, or any row
    /// once the table is full, is refused, and the table left as it was.
    pub fn insert(&mut self, row: &Row) -> (res: Result<(), CapacityError>)
        requires
            old(self)@.wf(),
        ensures
            final(self)@.wf(),
            match old(self)@.insert(row@) {
                Ok(table) => res is Ok && final(self)@ == table,
                Err(e) => res == Err::<(), CapacityError>(e) && final(self)@ == old(self)@,
            },
    {
        match row.check_capacity() {
            Ok(_) => {},
            Err(e) => {
                return Err(e);
            },
        }
        let row_num = self.num_rows;
        match self.row_slot_mut(row_num) {
            Ok(slot) => {
                match row.serialize(slot) {
                    Ok(_) => {},
                    Err(e) => {
                        return Err(e);
                    },
                }
            },
            Err(e) => {
                return Err(e);
            },
        }
        proof {
            lemma_encode_row_layout(row@);
            assert(encode_row(row@) + old(self)@.slot(row_num as int).skip(ROW_SIZE as int)
                =~= encode_row(row@));
        }
        self.num_rows = row_num + 1;
        proof {
            assert(self@.pages =~= old(self)@.insert(row@)->Ok_0.pages);
        }
        Ok(())
    }

    /// Makes page `page_num` if it is absent.
    fn check_slot(&mut self, page_num: usize)
        requires
            old(self)@.wf(),
            page_num < TABLE_MAX_PAGES,
        ensures
            final(self)@.wf(),
            final(self)@.num_rows == old(self)@.num_rows,
            final(self)@.pages == old(self)@.pages.update(
                page_num as int,
                Some(old(self)@.page(page_num as int)),
            ),
            final(self).pages@.len() == TABLE_MAX_PAGES,
            final(self).pages@[page_num as int] is Some,
    {
        // Allocate a page if it does not exist already
        if self.pages[page_num].is_none() {
            self.pages[page_num] = Some(Page::empty());
        }
        assert(self@.pages =~= old(self)@.pages.update(
            page_num as int,
            Some(old(self)@.page(page_num as int)),
        ));
    }
}

} // verus!
