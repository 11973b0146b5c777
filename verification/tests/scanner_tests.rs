use file_searcher::lines::line_end;
use file_searcher::matching::{find_first, matches_at};
use file_searcher::record::SearchSuccess;
use file_searcher::scanner::{scan_line, search};

fn triples(found: &[SearchSuccess]) -> Vec<(String, usize, usize)> {
    found.iter().map(|m| (m.file_name.clone(), m.line, m.column)).collect()
}

#[test]
fn find_first_reports_smallest_offset() {
    assert_eq!(find_first(b"abcabc", b"bc"), Some(1));
    assert_eq!(find_first(b"abcabc", b"c"), Some(2));
    assert_eq!(find_first(b"abcabc", b"abcabc"), Some(0));
}

#[test]
fn find_first_reports_absence() {
    assert_eq!(find_first(b"abcabc", b"cb"), None);
    assert_eq!(find_first(b"abc", b"abcd"), None);
    assert_eq!(find_first(b"", b"a"), None);
}

#[test]
fn find_first_of_empty_pattern_is_zero() {
    assert_eq!(find_first(b"abc", b""), Some(0));
    assert_eq!(find_first(b"", b""), Some(0));
}

#[test]
fn find_first_at_the_very_end() {
    assert_eq!(find_first(b"xxxxab", b"ab"), Some(4));
}

#[test]
fn matches_at_compares_the_window() {
    assert!(matches_at(b"hello", b"ell", 1));
    assert!(!matches_at(b"hello", b"ell", 0));
    assert!(matches_at(b"hello", b"", 5));
    assert!(matches_at(b"hello", b"hello", 0));
}

#[test]
fn matches_at_is_false_where_the_pattern_does_not_fit() {
    assert!(!matches_at(b"hello", b"lo", 4));
    assert!(!matches_at(b"hello", b"", 6));
    assert!(!matches_at(b"", b"a", 0));
}

#[test]
fn line_end_past_the_end_is_the_end() {
    assert_eq!(line_end(b"ab\n", 3), 3);
    assert_eq!(line_end(b"ab\n", 9), 3);
    assert_eq!(line_end(b"", 0), 0);
}

#[test]
fn line_end_from_the_middle_of_a_line() {
    assert_eq!(line_end(b"abc\ndef", 1), 4);
    assert_eq!(line_end(b"abc\ndef", 5), 7);
}

#[test]
fn line_end_stops_after_line_feed() {
    assert_eq!(line_end(b"ab\ncd\n", 0), 3);
    assert_eq!(line_end(b"ab\ncd\n", 3), 6);
    assert_eq!(line_end(b"\n\nx", 0), 1);
    assert_eq!(line_end(b"\n\nx", 1), 2);
}

#[test]
fn line_end_of_unterminated_line_is_end_of_bytes() {
    assert_eq!(line_end(b"ab\ncd", 3), 5);
    assert_eq!(line_end(b"abc", 0), 3);
}

#[test]
fn scan_line_skips_lines_shorter_than_pattern() {
    assert_eq!(scan_line(b"ab", b"abc"), None);
    assert_eq!(scan_line(b"", b"a"), None);
}

#[test]
fn scan_line_finds_first_column() {
    assert_eq!(scan_line(b"say hello, hello\n", b"hello"), Some(4));
    assert_eq!(scan_line(b"nothing here\n", b"hello"), None);
}

#[test]
fn scan_line_counts_columns_in_decoded_text() {
    // Two ill-formed bytes become two replacement characters of three bytes each.
    assert_eq!(scan_line(&[0xff, 0xff, b'a', b'\n'], b"a"), Some(6));
    assert_eq!(scan_line(&[0xff, b'\n'], "\u{fffd}".as_bytes()), None);
    assert_eq!(scan_line(&[0xff, b'x', b'y', b'\n'], "\u{fffd}".as_bytes()), Some(0));
}

#[test]
fn scan_line_keeps_well_formed_text_as_it_is() {
    let line = "gr\u{fc}\u{df}e welt\n";
    assert_eq!(scan_line(line.as_bytes(), b"welt"), Some(8));
}

#[test]
fn search_hello_world() {
    let found = search("a.txt", b"hello world\ngoodbye\n", "hello");
    assert_eq!(triples(&found), vec![("a.txt".to_string(), 1, 0)]);
}

#[test]
fn search_reports_first_occurrence_only() {
    let found = search("f", b"foofoo\n", "foo");
    assert_eq!(triples(&found), vec![("f".to_string(), 1, 0)]);
}

#[test]
fn search_counts_every_line() {
    let found = search("f", b"x\n\nab needle\nneedle\nno\n  needle", "needle");
    assert_eq!(
        triples(&found),
        vec![("f".to_string(), 3, 3), ("f".to_string(), 4, 0), ("f".to_string(), 6, 2)]
    );
}

#[test]
fn search_same_count_with_or_without_final_line_feed() {
    let with = search("f", b"one\ntwo one\nthree\n", "one");
    let without = search("f", b"one\ntwo one\nthree", "one");
    assert_eq!(triples(&with), vec![("f".to_string(), 1, 0), ("f".to_string(), 2, 4)]);
    assert_eq!(triples(&with), triples(&without));
}

#[test]
fn search_of_empty_file_finds_nothing() {
    assert!(search("f", b"", "a").is_empty());
    assert!(search("f", b"", "").is_empty());
}

#[test]
fn search_with_empty_string_reports_every_line_at_column_zero() {
    let found = search("f", b"a\n\nb", "");
    assert_eq!(
        triples(&found),
        vec![("f".to_string(), 1, 0), ("f".to_string(), 2, 0), ("f".to_string(), 3, 0)]
    );
}

#[test]
fn search_pattern_with_line_feed_matches_at_line_end() {
    let found = search("f", b"ab\nab", "b\n");
    assert_eq!(triples(&found), vec![("f".to_string(), 1, 1)]);
}

#[test]
fn search_is_case_sensitive() {
    assert!(search("f", b"Hello\n", "hello").is_empty());
}

#[test]
fn search_handles_nul_bytes() {
    let found = search("f", b"a\0\nb a\0", "a");
    assert_eq!(triples(&found), vec![("f".to_string(), 1, 0), ("f".to_string(), 2, 2)]);
}

#[test]
fn search_columns_stay_within_the_line() {
    let contents: &[u8] = b"xxneedle\nneedle\nxneedl\nxxxxxxneedle";
    let lines: Vec<&[u8]> = vec![b"xxneedle\n", b"needle\n", b"xneedl\n", b"xxxxxxneedle"];
    let found = search("f", contents, "needle");
    assert_eq!(found.len(), 3);
    for m in &found {
        assert!(m.column + "needle".len() <= lines[m.line - 1].len());
    }
}

#[test]
fn search_twice_gives_the_same_records() {
    let first = search("f", b"ab\ncab\n\xffab", "ab");
    let second = search("f", b"ab\ncab\n\xffab", "ab");
    assert_eq!(triples(&first), triples(&second));
    assert_eq!(
        triples(&first),
        vec![("f".to_string(), 1, 0), ("f".to_string(), 2, 1), ("f".to_string(), 3, 3)]
    );
}

#[test]
fn message_names_file_line_and_column() {
    let found = SearchSuccess { file_name: "a.txt".to_string(), line: 1, column: 0 };
    assert_eq!(found.message(), "Found a match in file a.txt, line 1, column 0!");
}

#[test]
fn message_writes_numbers_in_decimal() {
    let found = SearchSuccess { file_name: "notes".to_string(), line: 120, column: 4057 };
    assert_eq!(found.message(), "Found a match in file notes, line 120, column 4057!");
}
