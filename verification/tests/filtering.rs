use log_trimmer::classify::{classify_line, filter_lines, starts_with_key};
use log_trimmer::keywords::parse_keywords;
use log_trimmer::pipeline::{render_lines, split_data_lines, trim_content};
use log_trimmer::text::{category_token, utf8_valid};

fn v(s: &str) -> Vec<u8> {
    s.as_bytes().to_vec()
}

#[test]
fn scenario_error_prefix_column_one() {
    // Keywords ["ERROR"], category column 1 (the second token):
    // an exact match and a longer token that ERROR prefixes both drop.
    let input = v("2024 INFO boot ok\n2024 ERROR disk fail\n2024 ERRORX retry\n");
    let keys = v("ERROR\n");
    let out = trim_content(&input, &keys, 1).unwrap();
    assert_eq!(out, v("2024 INFO boot ok\n"));
}

#[test]
fn scenario_invalid_utf8_line_dropped() {
    // A line holding bytes that are not valid UTF-8 is dropped; its
    // well-formed neighbours survive.
    let mut input = v("alpha ok\n");
    input.extend_from_slice(&[0x66, 0xff, 0xfe, 0x20, 0x6f, 0x6b, 0x0a]);
    input.extend_from_slice(b"omega ok\n");
    let keys = v("");
    let out = trim_content(&input, &keys, 0).unwrap();
    assert_eq!(out, v("alpha ok\nomega ok\n"));
}

#[test]
fn empty_keyword_set_passes_well_formed_lines() {
    let input = v("a b c\nd e f\n");
    let keys = v("");
    let out = trim_content(&input, &keys, 0).unwrap();
    assert_eq!(out, input);
}

#[test]
fn empty_keyword_set_still_drops_short_lines() {
    // Column 2 needs three tokens; the middle line has two.
    let input = v("a b c\nd e\nf g h\n");
    let keys = v("");
    let out = trim_content(&input, &keys, 2).unwrap();
    assert_eq!(out, v("a b c\nf g h\n"));
}

#[test]
fn exact_keyword_match_drops() {
    let keys = vec![v("WARN")];
    assert!(!classify_line(&v("x WARN y"), &keys, 1));
}

#[test]
fn proper_prefix_match_drops() {
    let keys = vec![v("WARN")];
    assert!(!classify_line(&v("x WARNING y"), &keys, 1));
}

#[test]
fn non_prefix_substring_keeps() {
    // The keyword occurs inside the category token but not at its
    // start: the line is kept.
    let keys = vec![v("WARN")];
    assert!(classify_line(&v("x AWARN y"), &keys, 1));
}

#[test]
fn short_line_drops_regardless_of_keywords() {
    let keys: Vec<Vec<u8>> = Vec::new();
    assert!(!classify_line(&v("one two"), &keys, 5));
}

#[test]
fn second_pass_is_identity() {
    // Filtering the output of a run again with the same keywords and
    // column reproduces it byte for byte.
    let input = v("keep A 1\ndrop B 2\nkeep C 3\nx\n");
    let keys = v("drop\n");
    let once = trim_content(&input, &keys, 0).unwrap();
    let twice = trim_content(&once, &keys, 0).unwrap();
    assert_eq!(once, v("keep A 1\nkeep C 3\nx\n"));
    assert_eq!(twice, once);
}

#[test]
fn order_of_kept_lines_is_input_order() {
    let lines = vec![v("3 z"), v("1 a"), v("2 b"), v("1 c")];
    let keys = vec![v("1")];
    let kept = filter_lines(&lines, &keys, 0);
    assert_eq!(kept, vec![v("3 z"), v("2 b")]);
}

#[test]
fn any_keyword_drops() {
    let keys = vec![v("AA"), v("BB")];
    assert!(!classify_line(&v("BBX rest"), &keys, 0));
    assert!(!classify_line(&v("AAX rest"), &keys, 0));
    assert!(classify_line(&v("CCX rest"), &keys, 0));
}

#[test]
fn matching_is_case_sensitive_and_untrimmed() {
    let keys = vec![v("error")];
    assert!(classify_line(&v("x ERROR y"), &keys, 1));
    assert!(!classify_line(&v("x error y"), &keys, 1));
}

#[test]
fn parse_keywords_file_order() {
    let keys = parse_keywords(&v("one\ntwo\nthree\n")).unwrap();
    assert_eq!(keys, vec![v("one"), v("two"), v("three")]);
}

#[test]
fn parse_keywords_no_trailing_newline() {
    let keys = parse_keywords(&v("one\ntwo")).unwrap();
    assert_eq!(keys, vec![v("one"), v("two")]);
}

#[test]
fn parse_keywords_crlf() {
    let keys = parse_keywords(&v("one\r\ntwo\r\n")).unwrap();
    assert_eq!(keys, vec![v("one"), v("two")]);
}

#[test]
fn parse_keywords_empty_file() {
    let keys = parse_keywords(&v("")).unwrap();
    assert!(keys.is_empty());
}

#[test]
fn parse_keywords_rejects_invalid_utf8() {
    assert!(parse_keywords(&vec![0x6f, 0x6b, 0x0a, 0xc3, 0x28, 0x0a]).is_none());
    assert!(trim_content(&v("a b\n"), &vec![0xff], 0).is_none());
}

#[test]
fn utf8_multibyte_accepted() {
    assert!(utf8_valid(&v("caf\u{e9} \u{4e16}\u{754c} \u{1f600}")));
}

#[test]
fn utf8_overlong_rejected() {
    // 0xC0 0x80 is an overlong encoding of NUL.
    assert!(!utf8_valid(&vec![0xc0, 0x80]));
    // 0xE0 0x80 0x80 is an overlong three-byte form.
    assert!(!utf8_valid(&vec![0xe0, 0x80, 0x80]));
}

#[test]
fn utf8_surrogate_and_out_of_range_rejected() {
    // 0xED 0xA0 0x80 encodes a surrogate code point.
    assert!(!utf8_valid(&vec![0xed, 0xa0, 0x80]));
    // 0xF4 0x90 0x80 0x80 is above U+10FFFF.
    assert!(!utf8_valid(&vec![0xf4, 0x90, 0x80, 0x80]));
    // Truncated sequences are rejected.
    assert!(!utf8_valid(&vec![0xe2, 0x82]));
}

#[test]
fn category_token_splits_on_whitespace_runs() {
    assert_eq!(category_token(&v("  a\t\tbb   ccc "), 0).unwrap(), v("a"));
    assert_eq!(category_token(&v("  a\t\tbb   ccc "), 1).unwrap(), v("bb"));
    assert_eq!(category_token(&v("  a\t\tbb   ccc "), 2).unwrap(), v("ccc"));
    assert!(category_token(&v("  a\t\tbb   ccc "), 3).is_none());
    assert!(category_token(&v("   "), 0).is_none());
    // Vertical tab and form feed also separate tokens.
    assert_eq!(category_token(&v("a\x0bb\x0cc"), 2).unwrap(), v("c"));
}

#[test]
fn trailing_carriage_return_is_whitespace() {
    // A CRLF input line keeps its carriage return in the record, and
    // tokenisation is unaffected by it.
    assert_eq!(category_token(&v("a b\r"), 1).unwrap(), v("b"));
}

#[test]
fn starts_with_key_is_byte_prefix() {
    assert!(starts_with_key(&v("ERRORX"), &v("ERROR")));
    assert!(starts_with_key(&v("ERROR"), &v("ERROR")));
    assert!(starts_with_key(&v("ERROR"), &v("")));
    assert!(!starts_with_key(&v("ERR"), &v("ERROR")));
    assert!(!starts_with_key(&v("XERROR"), &v("ERROR")));
}

#[test]
fn split_and_render_line_records() {
    let lines = split_data_lines(&v("a\nbb\n\nc"));
    assert_eq!(lines, vec![v("a"), v("bb"), v(""), v("c")]);
    // Rendering restores one line boundary after every record, so a
    // last record without one gains it.
    assert_eq!(render_lines(&lines), v("a\nbb\n\nc\n"));
}
