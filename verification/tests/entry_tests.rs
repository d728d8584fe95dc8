use elev::entry::{ElevEntry, ElevEntryError};
use elev::lex::IntErrorKind;

#[test]
fn decode_basic_line() {
    let e = ElevEntry::from_line("3 -4 2 5 1 1 4 32773 10 -20 30 40").unwrap();
    assert_eq!(e.page_x, 3);
    assert_eq!(e.page_z, -4);
    assert_eq!(e.node_x, 2);
    assert_eq!(e.node_z, 5);
    assert_eq!(e.node_radius, 1);
    assert_eq!(e.texture_ids, vec![32773]);
    assert_eq!(e.heights, vec![10, -20, 30, 40]);
}

#[test]
fn decode_counts_of_zero() {
    let e = ElevEntry::from_line("0 0 0 0 2 0 0").unwrap();
    assert!(e.texture_ids.is_empty());
    assert!(e.heights.is_empty());
}

#[test]
fn decode_accepts_any_whitespace_runs() {
    let e = ElevEntry::from_line("  1\t2  3 4\t\t5 1 1   7   8 ").unwrap();
    assert_eq!(e.page_x, 1);
    assert_eq!(e.page_z, 2);
    assert_eq!(e.texture_ids, vec![7]);
    assert_eq!(e.heights, vec![8]);
}

#[test]
fn decode_ignores_excess_trailing_tokens() {
    let e = ElevEntry::from_line("0 0 0 0 1 1 1 5 6 99 98 97").unwrap();
    assert_eq!(e.texture_ids, vec![5]);
    assert_eq!(e.heights, vec![6]);
}

#[test]
fn decode_missing_first_field() {
    let err = ElevEntry::from_line("").unwrap_err();
    assert!(matches!(err, ElevEntryError::MissingField("page_x")));
}

#[test]
fn decode_missing_middle_field() {
    let err = ElevEntry::from_line("1 2 3").unwrap_err();
    assert!(matches!(err, ElevEntryError::MissingField("node_z")));
}

#[test]
fn decode_missing_list_tokens() {
    let err = ElevEntry::from_line("0 0 0 0 1 2 0 7").unwrap_err();
    assert!(matches!(err, ElevEntryError::MissingField("texture_id")));
    let err = ElevEntry::from_line("0 0 0 0 1 1 3 7 1 2").unwrap_err();
    assert!(matches!(err, ElevEntryError::MissingField("height")));
}

#[test]
fn decode_bad_integer() {
    let err = ElevEntry::from_line("x 0 0 0 1 0 0").unwrap_err();
    assert!(matches!(
        err,
        ElevEntryError::ParseIntError("page_x", IntErrorKind::InvalidDigit)
    ));
}

#[test]
fn decode_u8_out_of_range() {
    let err = ElevEntry::from_line("0 0 300 0 1 0 0").unwrap_err();
    assert!(matches!(
        err,
        ElevEntryError::ParseIntError("node_x", IntErrorKind::PosOverflow)
    ));
}

#[test]
fn decode_negative_unsigned_field() {
    let err = ElevEntry::from_line("0 0 -1 0 1 0 0").unwrap_err();
    assert!(matches!(
        err,
        ElevEntryError::ParseIntError("node_x", IntErrorKind::InvalidDigit)
    ));
}

#[test]
fn decode_texture_id_overflow() {
    let err = ElevEntry::from_line("0 0 0 0 1 1 0 4294967296").unwrap_err();
    assert!(matches!(
        err,
        ElevEntryError::ParseIntError("texture_id", IntErrorKind::PosOverflow)
    ));
}

#[test]
fn decode_height_below_i32() {
    let err = ElevEntry::from_line("0 0 0 0 1 0 1 -2147483649").unwrap_err();
    assert!(matches!(
        err,
        ElevEntryError::ParseIntError("height", IntErrorKind::NegOverflow)
    ));
}

#[test]
fn decode_plus_sign_and_extremes() {
    let e = ElevEntry::from_line("+2147483647 -2147483648 0 0 1 0 2 2147483647 -2147483648")
        .unwrap();
    assert_eq!(e.page_x, i32::MAX);
    assert_eq!(e.page_z, i32::MIN);
    assert_eq!(e.heights, vec![i32::MAX, i32::MIN]);
}

#[test]
fn encode_exact_line() {
    let e = ElevEntry {
        page_x: 1,
        page_z: -2,
        node_x: 3,
        node_z: 4,
        node_radius: 5,
        texture_ids: vec![7, 32773],
        heights: vec![-9],
    };
    let line = e.to_line_bytes();
    assert_eq!(line, b"1 -2 3 4 5 2 1 7 32773 -9".to_vec());
}

#[test]
fn round_trip_reproduces_every_field() {
    let e = ElevEntry {
        page_x: -123,
        page_z: 2147483647,
        node_x: 126,
        node_z: 0,
        node_radius: 3,
        texture_ids: vec![0x8000, 0x4000 | 5, 0, 16383],
        heights: vec![0, -1, 1900, -2147483648, 2147483647],
    };
    let line = e.to_line_bytes();
    let back = ElevEntry::from_line_bytes(&line).unwrap();
    assert_eq!(back.page_x, e.page_x);
    assert_eq!(back.page_z, e.page_z);
    assert_eq!(back.node_x, e.node_x);
    assert_eq!(back.node_z, e.node_z);
    assert_eq!(back.node_radius, e.node_radius);
    assert_eq!(back.texture_ids, e.texture_ids);
    assert_eq!(back.heights, e.heights);
}

#[test]
fn round_trip_through_text() {
    let e = ElevEntry {
        page_x: 0,
        page_z: 0,
        node_x: 0,
        node_z: 0,
        node_radius: 0,
        texture_ids: vec![],
        heights: vec![],
    };
    let line = String::from_utf8(e.to_line_bytes()).unwrap();
    assert_eq!(line, "0 0 0 0 0 0 0");
    let back = ElevEntry::from_line(&line).unwrap();
    assert_eq!(back.node_radius, 0);
    assert!(back.texture_ids.is_empty());
}
