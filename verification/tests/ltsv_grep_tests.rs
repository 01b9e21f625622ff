use ltsv_grep::codec::encode_ltsv;
use ltsv_grep::codec::encode_record;
use ltsv_grep::codec::parse_ltsv;
use ltsv_grep::codec::DecodeError;
use ltsv_grep::matcher::passes_grep;
use ltsv_grep::pump::search;
use ltsv_grep::select::select_fields;
use ltsv_grep::select::split_commas;

fn pair(k: &str, v: &str) -> (String, String) {
    (k.to_string(), v.to_string())
}

fn keys(names: &[&str]) -> Vec<String> {
    names.iter().map(|n| n.to_string()).collect()
}

#[test]
fn round_trip_plain_pair() {
    let encoded = encode_ltsv("time", "10");
    assert_eq!(encoded, "time=10\t");
    let decoded = parse_ltsv(&encoded).unwrap();
    assert_eq!(decoded[0], pair("time", "10"));
    assert_eq!(decoded, vec![pair("time", "10"), pair("", "")]);
}

#[test]
fn round_trip_without_trailing_separator() {
    let decoded = parse_ltsv("time=10").unwrap();
    assert_eq!(decoded, vec![pair("time", "10")]);
    assert_eq!(encode_ltsv("time", "10"), "time=10\t");
}

#[test]
fn escape_round_trip_tab() {
    let encoded = encode_ltsv("k", "a\tb");
    assert_eq!(encoded, "k=a\\\tb\t");
    let decoded = parse_ltsv(&encoded).unwrap();
    assert_eq!(decoded[0], pair("k", "a\tb"));
}

#[test]
fn escape_round_trip_newline_and_backslash() {
    let encoded = encode_ltsv("a\nb", "c\\d");
    assert_eq!(encoded, "a\\\nb=c\\\\d\t");
    let decoded = parse_ltsv(&encoded).unwrap();
    assert_eq!(decoded[0], pair("a\nb", "c\\d"));
}

#[test]
fn known_asymmetry_on_equals_in_key() {
    let encoded = encode_ltsv("a=b", "c");
    assert_eq!(encoded, "a=b=c\t");
    let decoded = parse_ltsv(&encoded).unwrap();
    assert_ne!(decoded[0], pair("a=b", "c"));
    assert_eq!(decoded[0], pair("a", "bc"));
}

#[test]
fn split_commas_empty_string() {
    assert_eq!(split_commas(""), keys(&[""]));
}

#[test]
fn split_commas_basic() {
    assert_eq!(split_commas("a,b,c"), keys(&["a", "b", "c"]));
    assert_eq!(split_commas(",a,"), keys(&["", "a", ""]));
    assert_eq!(split_commas("host"), keys(&["host"]));
}

#[test]
fn whitelist_precedence() {
    let record = vec![pair("a", "1"), pair("b", "2"), pair("c", "3")];
    let picked = select_fields(&record, &keys(&["a", "b"]), &keys(&["b"]));
    assert_eq!(picked, vec![pair("a", "1")]);
}

#[test]
fn select_empty_lists_keep_everything() {
    let record = vec![pair("a", "1"), pair("a", "2"), pair("b", "3")];
    let picked = select_fields(&record, &Vec::new(), &Vec::new());
    assert_eq!(picked, record);
}

#[test]
fn select_blacklist_only() {
    let record = vec![pair("a", "1"), pair("b", "2"), pair("a", "3")];
    let picked = select_fields(&record, &Vec::new(), &keys(&["a"]));
    assert_eq!(picked, vec![pair("b", "2")]);
}

#[test]
fn matcher_exactness() {
    let pattern = "status=200";
    assert!(passes_grep(pattern, &vec![pair("status", "200"), pair("host", "x")]));
    assert!(!passes_grep(pattern, &vec![pair("status", "2000")]));
    assert!(!passes_grep(pattern, &vec![pair("Status", "200")]));
}

#[test]
fn matcher_empty_pattern_key() {
    let record = parse_ltsv("").unwrap();
    assert_eq!(record, vec![pair("", "")]);
    assert!(passes_grep("", &record));
    assert!(!passes_grep("", &vec![pair("x", "")]));
}

#[test]
fn end_to_end_scenario() {
    let lines = vec!["time=10\tstatus=200\thost=a.com".to_string()];
    let out = search("status=200", "", "host", &lines).unwrap();
    assert_eq!(out, vec!["time=10\tstatus=200\t\n".to_string()]);
}

#[test]
fn end_to_end_with_terminated_line() {
    let lines = vec!["time=10\tstatus=200\thost=a.com\n".to_string()];
    let out = search("status=200", "", "host", &lines).unwrap();
    assert_eq!(out, vec!["time=10\tstatus=200\t\n".to_string()]);
}

#[test]
fn no_trailing_newline_on_last_line() {
    let lines = vec!["a=1".to_string()];
    let out = search("a=1", "", "", &lines).unwrap();
    assert_eq!(out, vec!["a=1\t\n".to_string()]);
    assert!(out[0].ends_with('\n'));
}

#[test]
fn search_skips_non_matching_lines() {
    let lines = vec![
        "status=200\thost=a".to_string(),
        "status=404\thost=b".to_string(),
        "status=200\thost=c".to_string(),
    ];
    let out = search("status=200", "", "", &lines).unwrap();
    assert_eq!(
        out,
        vec!["status=200\thost=a\t\n".to_string(), "status=200\thost=c\t\n".to_string()],
    );
}

#[test]
fn search_matched_record_with_all_fields_hidden() {
    let lines = vec!["a=1".to_string()];
    let out = search("a=1", "", "a", &lines).unwrap();
    assert_eq!(out, vec!["\n".to_string()]);
}

#[test]
fn post_terminal_data_is_an_error() {
    assert_eq!(parse_ltsv("a=1\nx"), Err(DecodeError::PostTerminalData));
    assert_eq!(parse_ltsv("a=1\n").unwrap(), vec![pair("a", "1")]);
}

#[test]
fn search_reports_bad_line() {
    let lines = vec!["a=1\nx".to_string()];
    assert_eq!(search("a=1", "", "", &lines), Err(DecodeError::PostTerminalData));
}

#[test]
fn search_reports_bad_pattern() {
    let lines = vec!["a=1".to_string()];
    assert_eq!(search("a=1\nx", "", "", &lines), Err(DecodeError::PostTerminalData));
}

#[test]
fn lenient_decode_drops_misplaced_reserved_characters() {
    // a tab before any `=` is dropped from the key
    assert_eq!(parse_ltsv("a\t=b").unwrap(), vec![pair("a", "b")]);
    // a second unescaped `=` is dropped from the value
    assert_eq!(parse_ltsv("a=b=c").unwrap(), vec![pair("a", "bc")]);
}

#[test]
fn escaped_delimiters_are_literal() {
    assert_eq!(parse_ltsv("a\\=b=c").unwrap(), vec![pair("a=b", "c")]);
    assert_eq!(parse_ltsv("a=b\\\nc").unwrap(), vec![pair("a", "b\nc")]);
    assert_eq!(parse_ltsv("a=b\\\tc").unwrap(), vec![pair("a", "b\tc")]);
}

#[test]
fn decode_always_yields_a_pair() {
    assert_eq!(parse_ltsv("").unwrap(), vec![pair("", "")]);
    assert_eq!(parse_ltsv("x").unwrap(), vec![pair("x", "")]);
    assert_eq!(parse_ltsv("=").unwrap(), vec![pair("", "")]);
}

#[test]
fn encode_record_concatenates_and_terminates() {
    let record = vec![pair("a", "1"), pair("b", "2")];
    assert_eq!(encode_record(&record), "a=1\tb=2\t\n");
    assert_eq!(encode_record(&Vec::new()), "\n");
}
