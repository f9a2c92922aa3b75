use sqlrite::error::{CapacityError, CodecError, Field};
use sqlrite::storage::{
    read_null_terminated_str, Page, Row, Table, COLUMN_EMAIL_SIZE, COLUMN_USERNAME_SIZE,
    PAGE_SIZE, ROWS_PER_PAGE, ROW_SIZE, TABLE_MAX_PAGES, TABLE_MAX_ROWS,
};

#[test]
fn test_row_round_trip() {
    let row = Row::new(1, "foo".to_string(), "foo@example.org".to_string());

    // Serialize
    let mut buffer: Vec<u8> = vec![0; 1024];
    let written = row.serialize(&mut buffer).unwrap();
    // id_len (u64) + id (u64) + username_len (u64) + username + email_len (u64) + email
    let expected_written = std::mem::size_of::<u64>() as u64 * 4
        + COLUMN_USERNAME_SIZE as u64
        + COLUMN_EMAIL_SIZE as u64;
    assert_eq!(written as u64, expected_written);

    let (new_row, rest) = Row::deserialize(&buffer).unwrap();
    assert_eq!(row, new_row);
    // The rest of the buffer is all zeros
    assert!(rest.iter().all(|e| *e == 0));
}

#[test]
fn sizes() {
    assert_eq!(ROW_SIZE, 8 + 8 + 8 + 32 + 8 + 255);
    assert_eq!(ROW_SIZE, 319);
    assert_eq!(PAGE_SIZE, 4096);
    assert_eq!(TABLE_MAX_PAGES, 100);
    assert_eq!(ROWS_PER_PAGE, PAGE_SIZE / ROW_SIZE);
    assert_eq!(ROWS_PER_PAGE, 12);
    assert_eq!(TABLE_MAX_ROWS, ROWS_PER_PAGE * TABLE_MAX_PAGES);
    assert_eq!(TABLE_MAX_ROWS, 1200);
}

#[test]
fn row_getters() {
    let row = Row::new(7, "ann".to_string(), "ann@example.org".to_string());
    assert_eq!(row.id(), 7);
    assert_eq!(row.username(), "ann");
    assert_eq!(row.email(), "ann@example.org");
}

#[test]
fn serialized_layout_is_exact() {
    let row = Row::new(0x0102030405060708, "ab".to_string(), "c@d".to_string());
    let mut buffer = vec![0xffu8; ROW_SIZE + 3];
    assert_eq!(row.serialize(&mut buffer), Ok(ROW_SIZE));

    let mut expected: Vec<u8> = Vec::new();
    expected.extend_from_slice(&[8, 0, 0, 0, 0, 0, 0, 0]);
    expected.extend_from_slice(&[8, 7, 6, 5, 4, 3, 2, 1]);
    expected.extend_from_slice(&[32, 0, 0, 0, 0, 0, 0, 0]);
    expected.extend_from_slice(b"ab");
    expected.extend_from_slice(&[0u8; 30]);
    expected.extend_from_slice(&[255, 0, 0, 0, 0, 0, 0, 0]);
    expected.extend_from_slice(b"c@d");
    expected.extend_from_slice(&[0u8; 252]);
    // What lies behind the row is left alone.
    expected.extend_from_slice(&[0xff, 0xff, 0xff]);
    assert_eq!(buffer, expected);
}

#[test]
fn round_trip_gives_the_row_and_what_is_behind_it() {
    let row = Row::new(u64::MAX, "zoë".to_string(), "zoë@example.org".to_string());
    let mut buffer = vec![9u8; ROW_SIZE + 4];
    assert_eq!(row.serialize(&mut buffer), Ok(ROW_SIZE));
    let (back, rest) = Row::deserialize(&buffer).unwrap();
    assert_eq!(back, row);
    assert_eq!(rest, &[9u8, 9, 9, 9][..]);
}

#[test]
fn rows_chain_in_one_buffer() {
    let first = Row::new(1, "a".to_string(), "a@x".to_string());
    let second = Row::new(2, "b".to_string(), "b@x".to_string());
    let mut buffer = vec![0u8; 2 * ROW_SIZE];
    first.serialize(&mut buffer[..ROW_SIZE]).unwrap();
    second.serialize(&mut buffer[ROW_SIZE..]).unwrap();
    let (row, rest) = Row::deserialize(&buffer).unwrap();
    assert_eq!(row, first);
    let (row, rest) = Row::deserialize(rest).unwrap();
    assert_eq!(row, second);
    assert!(rest.is_empty());
}

#[test]
fn texts_that_fill_their_columns_round_trip() {
    let row = Row::new(3, "u".repeat(32), "e".repeat(255));
    let mut buffer = vec![0u8; ROW_SIZE];
    assert_eq!(row.check_capacity(), Ok(()));
    assert_eq!(row.serialize(&mut buffer), Ok(ROW_SIZE));
    let (back, rest) = Row::deserialize(&buffer).unwrap();
    assert_eq!(back, row);
    assert!(rest.is_empty());
}

#[test]
fn username_longer_than_its_column_is_refused() {
    let row = Row::new(3, "u".repeat(33), "e".to_string());
    let mut buffer = vec![5u8; ROW_SIZE];
    assert_eq!(row.check_capacity(), Err(CapacityError::UsernameTooLong));
    assert_eq!(row.serialize(&mut buffer), Err(CapacityError::UsernameTooLong));
    assert_eq!(buffer, vec![5u8; ROW_SIZE]);
}

#[test]
fn capacity_counts_bytes_not_characters() {
    // 17 characters of two bytes each are 34 bytes.
    let row = Row::new(3, "é".repeat(17), "e".to_string());
    assert_eq!(row.check_capacity(), Err(CapacityError::UsernameTooLong));
    let row = Row::new(3, "é".repeat(16), "e".to_string());
    assert_eq!(row.check_capacity(), Ok(()));
}

#[test]
fn email_longer_than_its_column_is_refused() {
    let row = Row::new(3, "u".to_string(), "e".repeat(256));
    let mut buffer = vec![5u8; ROW_SIZE];
    assert_eq!(row.check_capacity(), Err(CapacityError::EmailTooLong));
    assert_eq!(row.serialize(&mut buffer), Err(CapacityError::EmailTooLong));
    assert_eq!(buffer, vec![5u8; ROW_SIZE]);
}

#[test]
fn destination_shorter_than_a_row_is_refused() {
    let row = Row::new(3, "u".to_string(), "e".to_string());
    let mut buffer = vec![5u8; ROW_SIZE - 1];
    assert_eq!(row.serialize(&mut buffer), Err(CapacityError::DestinationTooSmall));
    assert_eq!(buffer, vec![5u8; ROW_SIZE - 1]);
}

#[test]
fn deserialize_refuses_a_short_buffer() {
    let row = Row::new(3, "u".to_string(), "e".to_string());
    let mut buffer = vec![0u8; ROW_SIZE];
    row.serialize(&mut buffer).unwrap();
    assert_eq!(
        Row::deserialize(&buffer[..ROW_SIZE - 1]).err(),
        Some(CodecError::Truncated)
    );
    assert_eq!(Row::deserialize(&[]).err(), Some(CodecError::Truncated));
}

#[test]
fn deserialize_refuses_a_wrong_length_prefix() {
    let row = Row::new(3, "u".to_string(), "e".to_string());
    let mut buffer = vec![0u8; ROW_SIZE];
    row.serialize(&mut buffer).unwrap();

    let mut bad = buffer.clone();
    bad[0] = 7;
    assert_eq!(
        Row::deserialize(&bad).err(),
        Some(CodecError::BadLengthPrefix { field: Field::Id })
    );
    let mut bad = buffer.clone();
    bad[16] = 31;
    assert_eq!(
        Row::deserialize(&bad).err(),
        Some(CodecError::BadLengthPrefix { field: Field::Username })
    );
    let mut bad = buffer.clone();
    bad[57] = 1;
    assert_eq!(
        Row::deserialize(&bad).err(),
        Some(CodecError::BadLengthPrefix { field: Field::Email })
    );
    // A buffer of zeros has no valid prefix either.
    assert_eq!(
        Row::deserialize(&vec![0u8; 1024]).err(),
        Some(CodecError::BadLengthPrefix { field: Field::Id })
    );
}

#[test]
fn deserialize_refuses_text_that_is_not_utf8() {
    let row = Row::new(3, "u".to_string(), "e".to_string());
    let mut buffer = vec![0u8; ROW_SIZE];
    row.serialize(&mut buffer).unwrap();

    let mut bad = buffer.clone();
    bad[24] = 0xff;
    assert_eq!(
        Row::deserialize(&bad).err(),
        Some(CodecError::InvalidText { field: Field::Username })
    );
    let mut bad = buffer.clone();
    bad[64] = 0xc3;
    assert_eq!(
        Row::deserialize(&bad).err(),
        Some(CodecError::InvalidText { field: Field::Email })
    );
}

#[test]
fn text_ends_at_the_first_zero() {
    assert_eq!(read_null_terminated_str(b"abc\0def\0"), Some("abc"));
    assert_eq!(read_null_terminated_str(b"abc"), Some("abc"));
    assert_eq!(read_null_terminated_str(b"\0abc"), Some(""));
    assert_eq!(read_null_terminated_str(b""), Some(""));
    assert_eq!(read_null_terminated_str("zoë\0".as_bytes()), Some("zoë"));
    assert_eq!(read_null_terminated_str(&[0x61, 0xff, 0]), None);
    // Bytes behind the zero are not looked at.
    assert_eq!(read_null_terminated_str(&[0x61, 0, 0xff]), Some("a"));
}

#[test]
fn empty_page_is_zeros() {
    let page = Page::empty();
    let text = format!("{:?}", page);
    assert!(text.contains("data"));
    let mut table = Table::new();
    let slot = table.row_slot_mut(0).unwrap();
    assert_eq!(slot.len(), ROW_SIZE);
    assert!(slot.iter().all(|b| *b == 0));
}

#[test]
fn paging_arithmetic() {
    let row_num = ROWS_PER_PAGE * 3 + 5;
    assert_eq!(Table::locate(row_num), (3, 5 * ROW_SIZE));
    assert_eq!(Table::locate(0), (0, 0));
    assert_eq!(Table::locate(11), (0, 11 * ROW_SIZE));
    assert_eq!(Table::locate(12), (1, 0));
    assert_eq!(Table::locate(TABLE_MAX_ROWS - 1), (99, 11 * ROW_SIZE));
}

#[test]
fn slots_do_not_overlap() {
    let mut table = Table::new();
    let row_num = ROWS_PER_PAGE * 3 + 5;
    assert_eq!(table.row_slot(row_num), None);
    for (i, byte) in table.row_slot_mut(row_num).unwrap().iter_mut().enumerate() {
        *byte = (i % 251) as u8 + 1;
    }
    let written: Vec<u8> = (0..ROW_SIZE).map(|i| (i % 251) as u8 + 1).collect();
    assert_eq!(table.row_slot(row_num), Some(&written[..]));
    // The neighbours on the same page are still zeros.
    assert_eq!(table.row_slot(row_num - 1), Some(&[0u8; ROW_SIZE][..]));
    assert_eq!(table.row_slot(row_num + 1), Some(&[0u8; ROW_SIZE][..]));
    // The other pages have not been made.
    assert_eq!(table.row_slot(ROWS_PER_PAGE * 3 - 1), None);
    assert_eq!(table.row_slot(ROWS_PER_PAGE * 4), None);
    assert_eq!(table.num_rows(), 0);
}

#[test]
fn capacity_boundary() {
    let mut table = Table::new();
    assert!(table.row_slot_mut(TABLE_MAX_ROWS - 1).is_ok());
    assert_eq!(
        table.row_slot_mut(TABLE_MAX_ROWS).err(),
        Some(CapacityError::TableFull)
    );
    assert_eq!(
        table.row_slot_mut(usize::MAX).err(),
        Some(CapacityError::TableFull)
    );
    assert_eq!(table.row_slot(TABLE_MAX_ROWS), None);
}

#[test]
fn insert_appends_until_the_table_is_full() {
    let mut table = Table::new();
    for i in 0..TABLE_MAX_ROWS {
        let row = Row::new(i as u64, format!("user{}", i), format!("user{}@example.org", i));
        assert_eq!(table.insert(&row), Ok(()));
        assert_eq!(table.num_rows(), i + 1);
    }
    let row = Row::new(0, "late".to_string(), "late@example.org".to_string());
    assert_eq!(table.insert(&row), Err(CapacityError::TableFull));
    assert_eq!(table.num_rows(), TABLE_MAX_ROWS);

    for i in [0, 1, 11, 12, 599, TABLE_MAX_ROWS - 1] {
        let (row, rest) = Row::deserialize(table.row_slot(i).unwrap()).unwrap();
        assert_eq!(
            row,
            Row::new(i as u64, format!("user{}", i), format!("user{}@example.org", i))
        );
        assert!(rest.is_empty());
    }
}

#[test]
fn insert_of_a_row_that_does_not_fit_changes_nothing() {
    let mut table = Table::new();
    let row = Row::new(1, "u".repeat(33), "e".to_string());
    assert_eq!(table.insert(&row), Err(CapacityError::UsernameTooLong));
    let row = Row::new(1, "u".to_string(), "e".repeat(256));
    assert_eq!(table.insert(&row), Err(CapacityError::EmailTooLong));
    assert_eq!(table.num_rows(), 0);
    assert_eq!(table.row_slot(0), None);
}
