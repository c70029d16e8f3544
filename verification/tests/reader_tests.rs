use anlocate::util::{
    last_char_is_line_sep_newline, read_db_entry_include_newline, read_line,
    read_line_include_newline, ByteReader, ReadError,
};

#[test]
fn test_read_line_strips_newline() {
    let mut reader = ByteReader::new("abc\ndef".as_bytes().to_vec());
    let mut buf = Vec::new();
    assert_eq!(read_line(&mut reader, &mut buf), 4);
    assert_eq!(buf, "abc".as_bytes());
    buf.clear();
    assert_eq!(read_line(&mut reader, &mut buf), 3);
    assert_eq!(buf, "def".as_bytes());
    buf.clear();
    assert_eq!(read_line(&mut reader, &mut buf), 0);
    assert_eq!(buf, Vec::<u8>::new());
}

#[test]
fn test_read_line_include_newline_keeps_terminator() {
    let mut reader = ByteReader::new("abc\ndef".as_bytes().to_vec());
    let mut buf = Vec::new();
    assert_eq!(read_line_include_newline(&mut reader, &mut buf), 4);
    assert_eq!(buf, "abc\n".as_bytes());
}

#[test]
fn test_read_db_entry_plain_record() {
    let mut reader = ByteReader::new(vec![3, b'x', b'\n', 0, b'\n']);
    let mut buf = Vec::new();
    assert_eq!(read_db_entry_include_newline(&mut reader, &mut buf), Ok(3));
    assert_eq!(buf, vec![3, b'x', b'\n']);
    let mut buf = Vec::new();
    assert_eq!(read_db_entry_include_newline(&mut reader, &mut buf), Ok(2));
    let mut buf = Vec::new();
    assert_eq!(read_db_entry_include_newline(&mut reader, &mut buf), Ok(0));
}

#[test]
fn test_read_db_entry_newline_inside_count() {
    // the two extra bytes of a 253 header may themselves be newlines: the
    // reader keeps reading until the buffer is longer than the header
    let mut reader = ByteReader::new(vec![253, b'\n', b'\n', b'z', b'\n']);
    let mut buf = Vec::new();
    assert_eq!(read_db_entry_include_newline(&mut reader, &mut buf), Ok(5));
    assert_eq!(buf, vec![253, b'\n', b'\n', b'z', b'\n']);
}

#[test]
fn test_read_db_entry_reserved_marker_is_self_contained() {
    // a record whose first byte is the reserved marker 251 needs no extra
    // reads even though it means a count of 10
    let mut reader = ByteReader::new(vec![251, b'q', b'\n']);
    let mut buf = Vec::new();
    assert_eq!(read_db_entry_include_newline(&mut reader, &mut buf), Ok(3));
    assert_eq!(buf, vec![251, b'q', b'\n']);
}

#[test]
fn test_read_db_entry_truncated() {
    let mut reader = ByteReader::new(vec![254, b'\n']);
    let mut buf = Vec::new();
    assert_eq!(
        read_db_entry_include_newline(&mut reader, &mut buf),
        Err(ReadError::UnexpectedEof)
    );
    // no terminator at all
    let mut reader = ByteReader::new(vec![0, b'x']);
    let mut buf = Vec::new();
    assert_eq!(
        read_db_entry_include_newline(&mut reader, &mut buf),
        Err(ReadError::UnexpectedEof)
    );
}

#[test]
fn test_last_char_completion_rule() {
    assert!(last_char_is_line_sep_newline(&[0, b'\n']));
    assert!(!last_char_is_line_sep_newline(&[b'\n']));
    assert!(!last_char_is_line_sep_newline(&[253, b'\n']));
    assert!(!last_char_is_line_sep_newline(&[253, b'\n', b'\n']));
    assert!(last_char_is_line_sep_newline(&[253, 1, 1, b'\n']));
    assert!(!last_char_is_line_sep_newline(&[254, 1, 1, b'\n']));
    assert!(last_char_is_line_sep_newline(&[254, 1, 1, 1, b'\n']));
    assert!(!last_char_is_line_sep_newline(&[255, 1, 1, 1, b'\n']));
    assert!(last_char_is_line_sep_newline(&[255, 1, 1, 1, 1, b'\n']));
}
