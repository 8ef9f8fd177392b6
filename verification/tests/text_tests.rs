use asc_raster::text::{is_space_byte, token_spans, LineReader};

#[test]
fn lines_are_cut_at_line_feeds() {
    let mut reader = LineReader::new(b"a\nbc\n\nd".to_vec());
    assert_eq!(reader.next_line(), Some(b"a".to_vec()));
    assert_eq!(reader.next_line(), Some(b"bc".to_vec()));
    assert_eq!(reader.next_line(), Some(b"".to_vec()));
    assert_eq!(reader.next_line(), Some(b"d".to_vec()));
    assert_eq!(reader.next_line(), None);
    assert_eq!(reader.next_line(), None);
}

#[test]
fn a_final_line_feed_starts_no_line() {
    let mut reader = LineReader::new(b"a\n".to_vec());
    assert_eq!(reader.next_line(), Some(b"a".to_vec()));
    assert_eq!(reader.next_line(), None);
}

#[test]
fn an_empty_text_has_no_line() {
    let mut reader = LineReader::new(Vec::new());
    assert_eq!(reader.next_line(), None);
}

#[test]
fn a_lone_line_feed_is_one_empty_line() {
    let mut reader = LineReader::new(b"\n".to_vec());
    assert_eq!(reader.next_line(), Some(Vec::new()));
    assert_eq!(reader.next_line(), None);
}

#[test]
fn a_carriage_return_stays_in_the_line() {
    let mut reader = LineReader::new(b"1 2\r\n3 4\r\n".to_vec());
    assert_eq!(reader.next_line(), Some(b"1 2\r".to_vec()));
    assert_eq!(reader.next_line(), Some(b"3 4\r".to_vec()));
    assert_eq!(reader.next_line(), None);
}

#[test]
fn separators_are_the_six_ascii_blanks() {
    for b in 0u8..=255 {
        let expected = b == b' ' || b == b'\t' || b == b'\n' || b == 0x0b || b == 0x0c || b == b'\r';
        assert_eq!(is_space_byte(b), expected, "byte {}", b);
    }
}

#[test]
fn tokens_are_found_between_runs_of_blanks() {
    assert_eq!(token_spans(b"  ncols   3 \t"), vec![(2, 7), (10, 11)]);
    assert_eq!(token_spans(b"1 2\r"), vec![(0, 1), (2, 3)]);
    assert_eq!(token_spans(b"a\x0bb\x0cc"), vec![(0, 1), (2, 3), (4, 5)]);
    assert_eq!(token_spans(b"one"), vec![(0, 3)]);
}

#[test]
fn a_blank_line_has_no_token() {
    assert_eq!(token_spans(b""), Vec::new());
    assert_eq!(token_spans(b" \t \r"), Vec::new());
}
