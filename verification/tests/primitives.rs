//! Unit tests for the record primitives and codecs.

use datalab::json::{parse_json, to_json_text, JsonValue};
use datalab::records::{hamming_distance, simhash, text_length, tokenize, truncate_text};
use datalab::score::parse_score;
use datalab::csvfmt::parse_csv;
use datalab::ingest::detect_format;
use datalab::text::trim_str;

#[test]
fn truncate_keeps_short_text() {
    assert_eq!(truncate_text("hello", 480), "hello");
    assert_eq!(truncate_text("", 3), "");
}

#[test]
fn truncate_cuts_at_character_boundary() {
    // 'h' is one byte, 'é' is two: three bytes fit exactly two characters.
    assert_eq!(truncate_text("héllo", 3), "hé...");
    // the two-byte character no longer fits after 'h'
    assert_eq!(truncate_text("héllo", 2), "h...");
}

#[test]
fn text_length_counts_scalars() {
    assert_eq!(text_length(""), 0);
    assert_eq!(text_length("abc"), 3);
    assert_eq!(text_length("héllo"), 5);
    assert_eq!(text_length("日本語"), 3);
}

#[test]
fn tokenize_splits_and_filters() {
    assert_eq!(
        tokenize("Write a Python function to sort a list."),
        vec!["write", "python", "function", "sort", "list"]
    );
    assert_eq!(tokenize("a,b,,cde"), vec!["cde"]);
    assert_eq!(tokenize(""), Vec::<String>::new());
}

#[test]
fn hamming_counts_differing_bits() {
    assert_eq!(hamming_distance(0, 0), 0);
    assert_eq!(hamming_distance(0b1011, 0b0010), 2);
    assert_eq!(hamming_distance(u64::MAX, 0), 64);
}

#[test]
fn simhash_is_deterministic_and_zero_on_empty() {
    assert_eq!(simhash(""), 0);
    assert_eq!(simhash("no"), 0); // the only token is too short
    let a = simhash("Write a Python function to sort a list.");
    let b = simhash("Write a Python function to sort a list.");
    assert_eq!(a, b);
    assert_ne!(a, 0);
    assert_eq!(hamming_distance(a, b), 0);
}

#[test]
fn simhash_close_for_near_duplicates() {
    // same token stream after case folding and splitting
    let a = simhash("Write a Python function to sort a list.");
    let b = simhash("Write a python function to sort a list");
    assert_eq!(hamming_distance(a, b), 0);
    // clearly different texts have different fingerprints
    let c = simhash("entirely unrelated words about cooking dinner tonight");
    assert_ne!(a, c);
}

#[test]
fn parse_score_reads_fixed_point_decimals() {
    assert_eq!(parse_score("0.9"), 900_000);
    assert_eq!(parse_score("2"), 2_000_000);
    assert_eq!(parse_score("-1.5"), -1_500_000);
    assert_eq!(parse_score("+0.25"), 250_000);
    assert_eq!(parse_score("3."), 3_000_000);
    assert_eq!(parse_score(".5"), 500_000);
    assert_eq!(parse_score(""), 0);
    assert_eq!(parse_score("abc"), 0);
    assert_eq!(parse_score("1.2.3"), 0);
    assert!(parse_score("0.9") > parse_score("0.5"));
    assert!(parse_score("0.5") > parse_score("0.1"));
}

#[test]
fn parse_score_reads_exponents_and_keywords() {
    assert_eq!(parse_score("1e3"), 1_000_000_000);
    assert_eq!(parse_score("2.5e1"), 25_000_000);
    assert_eq!(parse_score("25e-1"), 2_500_000);
    assert_eq!(parse_score("1E+2"), 100_000_000);
    assert_eq!(parse_score("1e-12"), 0);
    assert_eq!(parse_score("1e300"), i64::MAX);
    assert_eq!(parse_score("-1e300"), i64::MIN);
    assert_eq!(parse_score("inf"), i64::MAX);
    assert_eq!(parse_score("-Infinity"), i64::MIN);
    assert_eq!(parse_score("NaN"), 0);
    assert_eq!(parse_score("1e"), 0);
    assert_eq!(parse_score("e3"), 0);
}

#[test]
fn json_parses_and_serializes_compactly() {
    let v = parse_json("{\"a\": 1, \"b\": [true, null, \"x\"]}").expect("parse");
    assert_eq!(to_json_text(&v), "{\"a\":1,\"b\":[true,null,\"x\"]}");
    let round = parse_json(&to_json_text(&v)).expect("reparse");
    assert_eq!(to_json_text(&round), to_json_text(&v));
}

#[test]
fn json_handles_escapes() {
    let v = parse_json("\"a\\n\\u0041\\\"\"").expect("parse");
    match &v {
        JsonValue::Str(s) => assert_eq!(s, "a\nA\""),
        _ => panic!("expected a string"),
    }
    assert_eq!(to_json_text(&v), "\"a\\nA\\\"\"");
}

#[test]
fn json_rejects_malformed_text() {
    assert!(parse_json("{").is_none());
    assert!(parse_json("[1,]").is_none());
    assert!(parse_json("tru").is_none());
    assert!(parse_json("\"unterminated").is_none());
}

#[test]
fn csv_parses_quotes_and_flexible_rows() {
    let rows = parse_csv("a,b\n1,\"x,y\"\n\"he said \"\"hi\"\"\"\n").expect("parse");
    assert_eq!(rows.len(), 3);
    assert_eq!(rows[0], vec!["a", "b"]);
    assert_eq!(rows[1], vec!["1", "x,y"]);
    assert_eq!(rows[2], vec!["he said \"hi\""]);
}

#[test]
fn csv_skips_blank_lines_and_handles_crlf() {
    let rows = parse_csv("a,b\r\n\r\nc,d\r\n").expect("parse");
    assert_eq!(rows.len(), 2);
    assert_eq!(rows[0], vec!["a", "b"]);
    assert_eq!(rows[1], vec!["c", "d"]);
}

#[test]
fn csv_rejects_unterminated_quote() {
    assert!(parse_csv("a,\"bc\n").is_none());
}

#[test]
fn format_detection() {
    assert_eq!(detect_format("csv", ""), "csv");
    assert_eq!(detect_format("JSONL", ""), "jsonl");
    assert_eq!(detect_format("Json", ""), "json");
    assert_eq!(detect_format("txt", "  [1, 2]"), "json");
    assert_eq!(detect_format("txt", " {\"a\":1}"), "json");
    assert_eq!(detect_format("txt", "plain words"), "csv");
}

#[test]
fn trim_strips_both_ends() {
    assert_eq!(trim_str("  hi there \t"), "hi there");
    assert_eq!(trim_str("   "), "");
    assert_eq!(trim_str("x"), "x");
}

#[test]
fn json_numbers_follow_the_strict_grammar() {
    assert!(parse_json("0").is_some());
    assert!(parse_json("-12.5").is_some());
    assert!(parse_json("1e3").is_some());
    assert!(parse_json("2.5E+10").is_some());
    assert!(parse_json("01").is_none());
    assert!(parse_json("1..2").is_none());
    assert!(parse_json("-").is_none());
    assert!(parse_json("1.").is_none());
    assert!(parse_json(".5").is_none());
    assert!(parse_json("1e").is_none());
    assert!(parse_json("1e+").is_none());
}
