use station_stats::scanner::{find_byte, next_line, read_line, Line};

#[test]
fn find_byte_gives_the_first_match() {
    let buf = b"ab;cd;ef";
    assert_eq!(find_byte(buf, 0, buf.len(), b';'), 2);
    assert_eq!(find_byte(buf, 2, buf.len(), b';'), 2);
    assert_eq!(find_byte(buf, 3, buf.len(), b';'), 5);
}

#[test]
fn find_byte_gives_the_end_without_a_match() {
    let buf = b"ab;cd;ef";
    assert_eq!(find_byte(buf, 6, buf.len(), b';'), 8);
    assert_eq!(find_byte(buf, 0, 2, b';'), 2);
    assert_eq!(find_byte(buf, 4, 4, b';'), 4);
    assert_eq!(find_byte(b"", 0, 0, b';'), 0);
}

#[test]
fn reads_a_record() {
    match read_line(b"Hamburg;12.3") {
        Line::Record { key, value } => {
            assert_eq!(key, b"Hamburg");
            assert_eq!(value, 123);
        }
        other => panic!("{:?}", other),
    }
}

#[test]
fn reads_a_record_with_an_empty_key() {
    match read_line(b";-0.5") {
        Line::Record { key, value } => {
            assert_eq!(key, b"");
            assert_eq!(value, -5);
        }
        other => panic!("{:?}", other),
    }
}

#[test]
fn reads_a_key_of_several_bytes_per_character() {
    let line = "Zürich;7.0".as_bytes();
    match read_line(line) {
        Line::Record { key, value } => {
            assert_eq!(key, "Zürich".as_bytes());
            assert_eq!(value, 70);
        }
        other => panic!("{:?}", other),
    }
}

#[test]
fn a_line_without_separator_is_no_record() {
    assert!(matches!(read_line(b"Ccity10.0"), Line::NoSeparator));
    assert!(matches!(read_line(b""), Line::NoSeparator));
}

#[test]
fn splits_at_the_first_separator() {
    assert!(matches!(read_line(b"a;b;1.0"), Line::UnreadableValue));
}

#[test]
fn a_value_outside_the_grammar_is_unreadable() {
    assert!(matches!(read_line(b"a;"), Line::UnreadableValue));
    assert!(matches!(read_line(b"a;1"), Line::UnreadableValue));
    assert!(matches!(read_line(b"a;1.25"), Line::UnreadableValue));
    assert!(matches!(read_line(b"a;abc"), Line::UnreadableValue));
    assert!(matches!(read_line(b"a;1.0\r"), Line::UnreadableValue));
    assert!(matches!(read_line(b"a;999999999999.9"), Line::UnreadableValue));
}

#[test]
fn a_key_that_is_not_text_is_undecodable() {
    assert!(matches!(read_line(b"\xff;1.0"), Line::UndecodableKey));
    assert!(matches!(read_line(b"ab\xc3;1.0"), Line::UndecodableKey));
    assert!(matches!(read_line(b"\xed\xa0\x80;1.0"), Line::UndecodableKey));
}

#[test]
fn the_key_is_looked_at_before_the_value() {
    assert!(matches!(read_line(b"\xff;nonsense"), Line::UndecodableKey));
}

#[test]
fn next_line_finds_the_terminator() {
    let buf = b"ab\ncd\n\nef";
    assert_eq!(next_line(buf, 0, buf.len()), Some(2));
    assert_eq!(next_line(buf, 1, buf.len()), Some(2));
    assert_eq!(next_line(buf, 2, buf.len()), Some(2));
    assert_eq!(next_line(buf, 3, buf.len()), Some(5));
    assert_eq!(next_line(buf, 6, buf.len()), Some(6));
}

#[test]
fn next_line_stops_at_the_end_of_the_range() {
    let buf = b"ab\ncd\n\nef";
    assert_eq!(next_line(buf, 7, buf.len()), None);
    assert_eq!(next_line(buf, 0, 2), None);
    assert_eq!(next_line(buf, 0, 3), Some(2));
    assert_eq!(next_line(buf, 3, 5), None);
    assert_eq!(next_line(buf, 9, 9), None);
    assert_eq!(next_line(b"", 0, 0), None);
}
