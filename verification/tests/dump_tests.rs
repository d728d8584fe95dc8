use elev::dump::{ElevDump, ElevDumpError};
use elev::entry::ElevEntryError;

#[test]
fn reads_header_and_entries() {
    let text = "elevdump version 2\n1 2 3 4 1 1 1 7 8\n-1 -2 5 6 1 0 0\n";
    let d = ElevDump::from_str(text).unwrap();
    assert_eq!(d.entries.len(), 2);
    assert_eq!(d.entries[0].page_x, 1);
    assert_eq!(d.entries[0].texture_ids, vec![7]);
    assert_eq!(d.entries[1].page_x, -1);
    assert!(d.entries[1].heights.is_empty());
}

#[test]
fn header_alone_gives_empty_dump() {
    let d = ElevDump::from_str("elevdump version 2").unwrap();
    assert!(d.entries.is_empty());
    let d2 = ElevDump::from_str("elevdump version 2\n").unwrap();
    assert!(d2.entries.is_empty());
}

#[test]
fn header_is_trimmed() {
    let d = ElevDump::from_str("   elevdump version 2  \t\n0 0 0 0 1 0 0\n").unwrap();
    assert_eq!(d.entries.len(), 1);
}

#[test]
fn blank_lines_are_skipped() {
    let text = "elevdump version 2\n\n   \n0 0 0 0 1 0 0\n\t\n0 0 1 1 1 0 0\n\n";
    let d = ElevDump::from_str(text).unwrap();
    assert_eq!(d.entries.len(), 2);
}

#[test]
fn crlf_line_endings_are_accepted() {
    let text = "elevdump version 2\r\n0 0 0 0 1 1 1 7 8\r\n";
    let d = ElevDump::from_str(text).unwrap();
    assert_eq!(d.entries.len(), 1);
    assert_eq!(d.entries[0].texture_ids, vec![7]);
}

#[test]
fn wrong_header_is_invalid_version() {
    let err = ElevDump::from_str("elevdump version 3\n0 0 0 0 1 0 0\n").unwrap_err();
    match err {
        ElevDumpError::InvalidVersion(s) => assert_eq!(s, "elevdump version 3"),
        other => panic!("unexpected error: {:?}", other),
    }
}

#[test]
fn empty_input_is_invalid_version() {
    let err = ElevDump::from_str("").unwrap_err();
    match err {
        ElevDumpError::InvalidVersion(s) => assert_eq!(s, ""),
        other => panic!("unexpected error: {:?}", other),
    }
}

#[test]
fn entry_error_aborts_whole_read() {
    let text = "elevdump version 2\n0 0 0 0 1 0 0\n0 0 bad 0 1 0 0\n0 0 1 1 1 0 0\n";
    let err = ElevDump::from_str(text).unwrap_err();
    assert!(matches!(
        err,
        ElevDumpError::ElevEntryError(ElevEntryError::ParseIntError("node_x", _))
    ));
}

#[test]
fn entries_keep_file_order() {
    let text = "elevdump version 2\n5 0 0 0 1 0 0\n6 0 0 0 1 0 0\n7 0 0 0 1 0 0\n";
    let d = ElevDump::from_str(text).unwrap();
    let pages: Vec<i32> = d.entries.iter().map(|e| e.page_x).collect();
    assert_eq!(pages, vec![5, 6, 7]);
}
