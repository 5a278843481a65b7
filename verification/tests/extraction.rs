use textutils::delim::parse_delimiter;
use textutils::extract::extract;
use textutils::extract::extract_bytes;
use textutils::extract::extract_chars;
use textutils::extract::extract_fields;
use textutils::extract::join_bytes;
use textutils::extract::split_bytes;
use textutils::extract::SelectionMode;
use textutils::position::Position;

fn pos(start: usize, end: usize) -> Position {
    Position { start, end }
}

#[test]
fn test_extract_chars() {
    assert_eq!(extract_chars("", &[pos(0, 1)]), "".to_string());
    assert_eq!(extract_chars("ábc", &[pos(0, 1)]), "á".to_string());
    assert_eq!(
        extract_chars("ábc", &[pos(0, 1), pos(2, 3)]),
        "ác".to_string()
    );
    assert_eq!(extract_chars("ábc", &[pos(0, 3)]), "ábc".to_string());
    assert_eq!(
        extract_chars("ábc", &[pos(2, 3), pos(1, 2)]),
        "cb".to_string()
    );
    assert_eq!(
        extract_chars("ábc", &[pos(0, 1), pos(1, 2), pos(4, 5)]),
        "áb".to_string()
    );
}

#[test]
fn chars_multi_byte_aware() {
    assert_eq!(extract_chars("ábc", &[pos(0, 1), pos(2, 3)]), "ác");
}

#[test]
fn chars_out_of_range_tail_contributes_nothing() {
    assert_eq!(extract_chars("ábc", &[pos(0, 1), pos(1, 2), pos(4, 5)]), "áb");
}

#[test]
fn fields_basic_selection() {
    let out = extract_fields("a,b,c".as_bytes(), b',', &[pos(0, 1), pos(2, 3)]);
    assert_eq!(out, b"a,c".to_vec());
}

#[test]
fn fields_out_of_range_index_drops_silently() {
    let out = extract_fields("a,b".as_bytes(), b',', &[pos(0, 1), pos(5, 6)]);
    assert_eq!(out, b"a".to_vec());
}

#[test]
fn fields_preserve_empty_fields() {
    let out = extract_fields("a,,c".as_bytes(), b',', &[pos(0, 3)]);
    assert_eq!(out, b"a,,c".to_vec());
    let out = extract_fields("a,,c".as_bytes(), b',', &[pos(1, 2)]);
    assert_eq!(out, b"".to_vec());
}

#[test]
fn fields_keep_range_list_order() {
    let out = extract_fields("a,b,c".as_bytes(), b',', &[pos(2, 3), pos(0, 1)]);
    assert_eq!(out, b"c,a".to_vec());
}

#[test]
fn bytes_clamp_to_line_length() {
    assert_eq!(extract_bytes(b"abc", &[pos(1, 10)]), b"bc".to_vec());
    assert_eq!(extract_bytes(b"abc", &[pos(5, 9)]), b"".to_vec());
    assert_eq!(
        extract_bytes(b"abcdef", &[pos(4, 6), pos(0, 2)]),
        b"efab".to_vec()
    );
}

#[test]
fn bytes_may_split_a_character() {
    // The first byte of a two-byte character comes out alone.
    assert_eq!(extract_bytes("ábc".as_bytes(), &[pos(0, 1)]), vec![0xC3u8]);
}

#[test]
fn extract_dispatches_on_mode() {
    let ranges = [pos(0, 1), pos(2, 3)];
    assert_eq!(
        extract(SelectionMode::Characters, "ábc", &ranges, b'\t'),
        "ác".as_bytes().to_vec()
    );
    assert_eq!(
        extract(SelectionMode::Bytes, "abc", &ranges, b'\t'),
        b"ac".to_vec()
    );
    assert_eq!(
        extract(SelectionMode::Fields, "a\tb\tc", &ranges, b'\t'),
        b"a\tc".to_vec()
    );
}

#[test]
fn splitting_does_not_collapse_delimiters() {
    let fields = split_bytes(b"x,,y,", b',');
    let expected: Vec<Vec<u8>> = vec![b"x".to_vec(), b"".to_vec(), b"y".to_vec(), b"".to_vec()];
    assert_eq!(fields, expected);
    assert_eq!(join_bytes(&fields, b','), b"x,,y,".to_vec());
}

#[test]
fn delimiter_must_be_one_byte() {
    assert_eq!(parse_delimiter(","), Ok(b','));
    assert_eq!(parse_delimiter("\t"), Ok(b'\t'));
    let res = parse_delimiter("ab");
    assert!(res.is_err());
    assert_eq!(
        res.unwrap_err().message(),
        "--delim \"ab\" must be a single byte"
    );
    assert!(parse_delimiter("").is_err());
    // one character, but two bytes
    let res = parse_delimiter("á");
    assert!(res.is_err());
    assert_eq!(
        res.unwrap_err().message(),
        "--delim \"á\" must be a single byte"
    );
}
