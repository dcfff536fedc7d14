use moseleydb::bytes::{push_be, read_be};
use moseleydb::layout::ROW_SIZE;
use moseleydb::row::{DecodeError, Row};
use moseleydb::statement::{MetaCommand, Statement, StatementError};
use moseleydb::text::{digits_at_most, same_text, starts_with};

fn row(id: u32, username: &str, email: &str) -> Row {
    Row { id, username: username.to_string(), email: email.to_string() }
}

fn same(a: &Row, b: &Row) -> bool {
    a.id == b.id && a.username == b.username && a.email == b.email
}

#[test]
fn serialized_layout_is_exact() {
    let b = row(0x0102_0304, "ab", "c").serialize();
    assert_eq!(b.len(), ROW_SIZE);
    assert_eq!(b.len(), 307);
    assert_eq!(&b[0..4], &[1, 2, 3, 4]);
    assert_eq!(&b[4..12], &[0, 0, 0, 0, 0, 0, 0, 2]);
    assert_eq!(&b[12..14], b"ab");
    assert!(b[14..44].iter().all(|&x| x == 0));
    assert_eq!(&b[44..52], &[0, 0, 0, 0, 0, 0, 0, 1]);
    assert_eq!(b[52], b'c');
    assert!(b[53..].iter().all(|&x| x == 0));
}

#[test]
fn round_trip_plain_row() {
    let r = row(42, "user1", "person1@example.com");
    let back = Row::deserialize(&r.serialize()).unwrap();
    assert!(same(&r, &back));
}

#[test]
fn round_trip_largest_fields() {
    let r = row(u32::MAX, &"u".repeat(32), &"e".repeat(255));
    let back = Row::deserialize(&r.serialize()).unwrap();
    assert!(same(&r, &back));
}

#[test]
fn round_trip_keeps_trailing_space_and_multibyte_text() {
    let r = row(7, "a ", "é@x");
    let back = Row::deserialize(&r.serialize()).unwrap();
    assert_eq!(back.username, "a ");
    assert_eq!(back.email, "é@x");
}

#[test]
fn round_trip_empty_texts() {
    let r = row(0, "", "");
    let back = Row::deserialize(&r.serialize()).unwrap();
    assert!(same(&r, &back));
}

#[test]
fn decode_rejects_length_past_field() {
    let mut b = row(1, "a", "b").serialize();
    b[11] = 33;
    assert_eq!(Row::deserialize(&b).unwrap_err(), DecodeError::LengthOutOfRange);
    let mut b = row(1, "a", "b").serialize();
    b[51] = 0;
    b[50] = 1;
    assert_eq!(Row::deserialize(&b).unwrap_err(), DecodeError::LengthOutOfRange);
}

#[test]
fn decode_rejects_invalid_text() {
    let mut b = row(1, "a", "b").serialize();
    b[12] = 0xff;
    assert_eq!(Row::deserialize(&b).unwrap_err(), DecodeError::InvalidText);
}

#[test]
fn big_endian_helpers() {
    let mut v = vec![9u8];
    push_be(&mut v, 258, 4);
    assert_eq!(v, vec![9, 0, 0, 1, 2]);
    assert_eq!(read_be(&v, 1, 4), 258);
    assert_eq!(read_be(&v, 0, 3), 9 * 65536);
}

#[test]
fn fields_negative_id() {
    assert!(matches!(Row::from_fields("-1", "a", "b@c.com"), Err(StatementError::NegativeId)));
    assert!(matches!(
        Row::from_fields("-2147483648", "a", "b"),
        Err(StatementError::NegativeId)
    ));
    assert!(matches!(
        Row::from_fields("-2147483649", "a", "b"),
        Err(StatementError::SyntaxError)
    ));
    assert!(matches!(Row::from_fields("-0", "a", "b"), Err(StatementError::SyntaxError)));
}

#[test]
fn fields_id_forms() {
    assert_eq!(Row::from_fields("+5", "a", "b").unwrap().id, 5);
    assert_eq!(Row::from_fields("4294967295", "a", "b").unwrap().id, 4294967295);
    assert!(matches!(
        Row::from_fields("4294967296", "a", "b"),
        Err(StatementError::SyntaxError)
    ));
    assert!(matches!(Row::from_fields("abc", "a", "b"), Err(StatementError::SyntaxError)));
    assert!(matches!(Row::from_fields("", "a", "b"), Err(StatementError::SyntaxError)));
    assert!(matches!(Row::from_fields("+", "a", "b"), Err(StatementError::SyntaxError)));
}

#[test]
fn fields_length_boundaries() {
    let ok = Row::from_fields("1", &"u".repeat(32), &"e".repeat(255)).unwrap();
    assert_eq!(ok.username.len(), 32);
    assert_eq!(ok.email.len(), 255);
    let back = Row::deserialize(&ok.serialize()).unwrap();
    assert!(same(&ok, &back));
    assert!(matches!(
        Row::from_fields("1", &"u".repeat(33), "e"),
        Err(StatementError::StringTooLong)
    ));
    assert!(matches!(
        Row::from_fields("1", "u", &"e".repeat(256)),
        Err(StatementError::StringTooLong)
    ));
    // Lengths count bytes: 17 two-byte characters are 34 bytes.
    assert!(matches!(
        Row::from_fields("1", &"é".repeat(17), "e"),
        Err(StatementError::StringTooLong)
    ));
}

#[test]
fn insert_command_fields() {
    let r = Row::from_str("insert 7 bob bob@x.org").unwrap();
    assert_eq!(r.id, 7);
    assert_eq!(r.username, "bob");
    assert_eq!(r.email, "bob@x.org");
    assert!(matches!(
        Row::from_str("insert -1 a b@c.com"),
        Err(StatementError::NegativeId)
    ));
    assert!(matches!(Row::from_str("insert 1 a"), Err(StatementError::SyntaxError)));
    assert!(matches!(Row::from_str("insert"), Err(StatementError::SyntaxError)));
}

#[test]
fn statement_by_keyword() {
    assert!(matches!(Statement::new("select"), Ok(Statement::Select(s)) if s == "select"));
    assert!(matches!(Statement::new("insert 1 a b"), Ok(Statement::Insert(r)) if r.id == 1));
    assert!(matches!(
        Statement::new("update 1"),
        Err(StatementError::UnrecognizedKeyword(s)) if s == "update 1"
    ));
    assert!(matches!(Statement::new("insert x y z"), Err(StatementError::SyntaxError)));
}

#[test]
fn meta_commands() {
    assert!(matches!(MetaCommand::new(".exit"), Ok(MetaCommand::Exit)));
    assert!(MetaCommand::new(".exi").is_err());
    assert!(MetaCommand::new(".exit ").is_err());
}

#[test]
fn error_messages() {
    assert_eq!(StatementError::SyntaxError.message(), "Syntax error. Could not parse statement.");
    assert_eq!(StatementError::StringTooLong.message(), "String is too long.");
    assert_eq!(StatementError::NegativeId.message(), "ID must be positive.");
    assert_eq!(
        StatementError::UnrecognizedKeyword("foo".to_string()).message(),
        "Unrecognized keyword at start of 'foo'."
    );
}

#[test]
fn text_helpers() {
    assert_eq!(digits_at_most("x123", 1, 200), Some(123));
    assert_eq!(digits_at_most("x123", 1, 122), None);
    assert_eq!(digits_at_most("x12a", 1, 1000), None);
    assert_eq!(digits_at_most("x", 1, 1000), None);
    assert!(starts_with("insert 1", "insert"));
    assert!(!starts_with("ins", "insert"));
    assert!(same_text("é", "é"));
    assert!(!same_text("a", "ab"));
}
