use textutils::entrymatch::is_match_entry_type;
use textutils::entrymatch::is_match_name;
use textutils::entrymatch::EntryKind;
use textutils::entrymatch::EntryType;
use textutils::headcount::parse_byte_count;
use textutils::headcount::read_first_n_bytes;
use textutils::headcount::read_first_n_lines;
use textutils::numbering::render_lines;
use textutils::uniq::format_count_prefix;
use textutils::uniq::lines_match;
use textutils::uniq::uniq_step;
use textutils::uniq::UniqState;
use textutils::wordcount::count;
use textutils::wordcount::format_counts;
use textutils::wordcount::FileInfo;

#[test]
fn test_count() {
    let text = "I don't want the world. I just want your half.\r\n";
    let info = count(text.as_bytes());

    let expected = FileInfo {
        num_lines: 1,
        num_words: 10,
        num_chars: 48,
        num_bytes: 48,
    };
    assert_eq!(info, expected);
}

#[test]
fn count_handles_empty_and_unterminated_input() {
    let info = count(b"");
    assert_eq!(
        info,
        FileInfo { num_lines: 0, num_words: 0, num_bytes: 0, num_chars: 0 }
    );
    let info = count(b"one two\nthree");
    assert_eq!(
        info,
        FileInfo { num_lines: 2, num_words: 3, num_bytes: 13, num_chars: 13 }
    );
}

#[test]
fn count_rows_are_right_aligned() {
    let info = count("I don't want the world. I just want your half.\r\n".as_bytes());
    assert_eq!(
        format_counts(&info, true, true, true, false),
        "       1      10      48"
    );
    assert_eq!(format_counts(&info, false, false, true, false), "      48");
    assert_eq!(format_counts(&info, false, false, false, false), "");
}

#[test]
fn totals_add_up() {
    let a = count(b"one\n");
    let b = count(b"two three\n");
    let t = a.add(&b);
    assert_eq!(
        t,
        FileInfo { num_lines: 2, num_words: 3, num_bytes: 14, num_chars: 14 }
    );
}

#[test]
fn byte_count_accepts_digits_and_units() {
    assert_eq!(parse_byte_count("10"), Ok(10));
    assert_eq!(parse_byte_count("0"), Ok(0));
    assert_eq!(parse_byte_count("12K"), Ok(12));
    assert_eq!(parse_byte_count("3MiB"), Ok(3));
    assert_eq!(parse_byte_count("7b"), Ok(7));
}

#[test]
fn byte_count_rejects_everything_else() {
    let res = parse_byte_count("12km");
    assert!(res.is_err());
    assert_eq!(res.unwrap_err().message(), "illegal byte count -- 12km");
    assert!(parse_byte_count("").is_err());
    assert!(parse_byte_count("K").is_err());
    assert!(parse_byte_count("-3").is_err());
    let res = parse_byte_count("99999999999999999999999999");
    assert!(res.is_err());
    assert_eq!(
        res.unwrap_err().message(),
        "illegal byte count -- 99999999999999999999999999"
    );
}

#[test]
fn first_bytes_clamp_to_input() {
    assert_eq!(read_first_n_bytes(b"hello", 2), b"he".to_vec());
    assert_eq!(read_first_n_bytes(b"hello", 99), b"hello".to_vec());
    assert_eq!(read_first_n_bytes(b"hello", 0), b"".to_vec());
}

#[test]
fn first_lines_keep_terminators() {
    let data = b"one\ntwo\nthree";
    assert_eq!(read_first_n_lines(data, 1), b"one\n".to_vec());
    assert_eq!(read_first_n_lines(data, 2), b"one\ntwo\n".to_vec());
    assert_eq!(read_first_n_lines(data, 3), b"one\ntwo\nthree".to_vec());
    assert_eq!(read_first_n_lines(data, 9), b"one\ntwo\nthree".to_vec());
    assert_eq!(read_first_n_lines(data, 0), b"".to_vec());
}

#[test]
fn numbering_every_line() {
    let lines = vec!["alpha".to_string(), "".to_string(), "beta".to_string()];
    let out = render_lines(&lines, true, false);
    assert_eq!(
        out,
        vec![
            "     1\talpha".to_string(),
            "     2\t".to_string(),
            "     3\tbeta".to_string(),
        ]
    );
}

#[test]
fn numbering_nonblank_lines_only() {
    let lines = vec!["alpha".to_string(), "".to_string(), "beta".to_string()];
    let out = render_lines(&lines, false, true);
    assert_eq!(
        out,
        vec![
            "     1\talpha".to_string(),
            "".to_string(),
            "     2\tbeta".to_string(),
        ]
    );
}

#[test]
fn numbering_off_copies_lines() {
    let lines = vec!["alpha".to_string(), "beta".to_string()];
    assert_eq!(render_lines(&lines, false, false), lines);
}

#[test]
fn line_matching_ignores_trailing_line_ends() {
    assert!(lines_match("abc\n", "abc\r\n"));
    assert!(lines_match("abc", "abc\n"));
    assert!(!lines_match("abc\n", "abd\n"));
    assert!(lines_match("", "\r\n"));
    assert!(!lines_match("a", ""));
}

#[test]
fn grouping_counts_consecutive_duplicates() {
    let lines = ["a\n", "a\n", "b\n", "a\n"];
    let mut state = UniqState { current: None, count: 0 };
    let mut rows: Vec<(String, usize)> = Vec::new();
    for line in lines {
        let (next, emit) = uniq_step(state, line, false);
        state = next;
        if let Some(e) = emit {
            rows.push((e.line, e.count));
        }
    }
    let (_, emit) = uniq_step(state, "", true);
    if let Some(e) = emit {
        rows.push((e.line, e.count));
    }
    assert_eq!(
        rows,
        vec![
            ("a\n".to_string(), 2),
            ("b\n".to_string(), 1),
            ("a\n".to_string(), 1),
        ]
    );
}

#[test]
fn empty_input_emits_nothing() {
    let state = UniqState { current: None, count: 0 };
    let (_, emit) = uniq_step(state, "", true);
    assert!(emit.is_none());
}

#[test]
fn count_prefix_is_right_aligned() {
    assert_eq!(format_count_prefix(4), "   4 ");
    assert_eq!(format_count_prefix(12345), "12345 ");
}

#[test]
fn entry_type_filter() {
    assert!(is_match_entry_type(EntryKind::File, &[]));
    assert!(is_match_entry_type(
        EntryKind::File,
        &[EntryType::Dir, EntryType::File]
    ));
    assert!(!is_match_entry_type(EntryKind::Link, &[EntryType::Dir]));
    assert!(!is_match_entry_type(EntryKind::Other, &[EntryType::Dir]));
}

#[test]
fn name_filter_runs_the_patterns() {
    let names = vec![".*[.]csv".to_string()];
    assert!(is_match_name("report.csv", &names));
    assert!(!is_match_name("report.txt", &names));
    let several = vec!["^x".to_string(), "mp4$".to_string()];
    assert!(is_match_name("video.mp4", &several));
    assert!(!is_match_name("video.mkv", &several));
    // no patterns: everything matches
    assert!(is_match_name("anything", &Vec::new()));
    // a pattern that does not compile matches nothing
    assert!(!is_match_name("anything", &vec!["(".to_string()]));
}
