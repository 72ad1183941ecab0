//! End-to-end tests of ingestion, filtering, distillation and export.

use datalab::distill::preview_distillation;
use datalab::export::export_dataset;
use datalab::filters::{apply_filters_inner, collect_categories};
use datalab::ingest::ingest_dataset;
use datalab::json::parse_json;
use datalab::models::{DistillConfig, FieldMap, FilterConfig, ManualChange, DataError};
use datalab::records::simhash;
use datalab::store::DatasetStore;
use datalab::view::{read_record_line, resolve_view_ids, update_manual_selection};

fn ingest(format: &str, text: &str) -> (DatasetStore, Vec<String>) {
    ingest_dataset(
        format,
        text,
        String::from("ds"),
        String::from("src"),
        String::from("store"),
        text.len() as u64,
    )
    .expect("ingest")
}

fn io_map() -> FieldMap {
    FieldMap {
        instruction: Some(String::from("instruction")),
        output: Some(String::from("output")),
        code: None,
        category: None,
        score: None,
    }
}

#[test]
fn csv_ingest_and_default_filter() {
    let (store, lines) = ingest("csv", "instruction,output\nhi,hello\n,there\n\"  \",x");
    assert_eq!(store.record_count, 3);
    assert_eq!(store.fields, vec!["instruction", "output"]);
    let (ids, summary) = apply_filters_inner(&lines, &FilterConfig::default(), &io_map())
        .expect("filter");
    assert_eq!(ids, vec![0]);
    assert_eq!(summary.total_count, 3);
    assert_eq!(summary.filtered_count, 1);
    assert_eq!(summary.duplicates_removed, 0);
}

#[test]
fn store_offsets_strictly_increase_and_lines_parse() {
    let (store, lines) = ingest("jsonl", "{\"a\":1}\n{\"b\":[1,2]}\n{\"c\":\"x\"}\n");
    assert_eq!(store.record_count, 3);
    assert_eq!(store.offsets.len(), 3);
    for w in store.offsets.windows(2) {
        assert!(w[0] < w[1]);
    }
    for i in 0..store.record_count {
        let line = read_record_line(&lines, i).expect("line");
        assert!(parse_json(&line).is_some());
    }
}

#[test]
fn non_object_records_are_wrapped() {
    let (store, lines) = ingest("jsonl", "42\n\"hi\"\n");
    assert_eq!(store.record_count, 2);
    assert_eq!(store.fields, vec!["value"]);
    assert_eq!(lines[0], "{\"value\":42}");
    assert_eq!(lines[1], "{\"value\":\"hi\"}");
}

#[test]
fn json_array_input_streams_records() {
    let (store, _lines) = ingest("json", " [ {\"a\": 1}, {\"a\": 2} ] ");
    assert_eq!(store.record_count, 2);
    assert_eq!(store.fields, vec!["a"]);
}

#[test]
fn unsupported_format_is_rejected() {
    let r = ingest_dataset(
        "xml",
        "<a/>",
        String::from("ds"),
        String::from("src"),
        String::from("store"),
        4,
    );
    assert!(matches!(r, Err(DataError::Unsupported)));
}

#[test]
fn malformed_json_line_fails_ingest() {
    let r = ingest_dataset(
        "jsonl",
        "{\"a\":1}\n{broken\n",
        String::from("ds"),
        String::from("src"),
        String::from("store"),
        0,
    );
    assert!(matches!(r, Err(DataError::Parse)));
}

#[test]
fn fuzzy_dedup_drops_near_duplicate() {
    let text = "{\"instruction\":\"Write a Python function to sort a list.\",\"output\":\"a\"}\n\
                {\"instruction\":\"Write a python function to sort a list\",\"output\":\"b\"}\n";
    let (_store, lines) = ingest("jsonl", text);
    let mut cfg = FilterConfig::default();
    cfg.dedupe_exact = false;
    cfg.dedupe_fuzzy = true;
    let (ids, summary) = apply_filters_inner(&lines, &cfg, &io_map()).expect("filter");
    assert_eq!(ids, vec![0]);
    assert_eq!(summary.duplicates_removed, 1);
}

#[test]
fn exact_dedup_collapses_whitespace_and_case() {
    let text = "{\"instruction\":\"Sort  The LIST\",\"output\":\"a\"}\n\
                {\"instruction\":\"sort the list\",\"output\":\"b\"}\n";
    let (_store, lines) = ingest("jsonl", text);
    let cfg = FilterConfig::default();
    let (ids, summary) = apply_filters_inner(&lines, &cfg, &io_map()).expect("filter");
    assert_eq!(ids, vec![0]);
    assert_eq!(summary.duplicates_removed, 1);
}

#[test]
fn keyword_filters_are_case_insensitive_by_default() {
    let text = "{\"instruction\":\"Learn Python today\",\"output\":\"a\"}\n\
                {\"instruction\":\"Learn Rust today\",\"output\":\"b\"}\n";
    let (_store, lines) = ingest("jsonl", text);
    let mut cfg = FilterConfig::default();
    cfg.include_keywords = vec![String::from("PYTHON")];
    let (ids, _s) = apply_filters_inner(&lines, &cfg, &io_map()).expect("filter");
    assert_eq!(ids, vec![0]);
    let mut cfg2 = FilterConfig::default();
    cfg2.exclude_keywords = vec![String::from("rust")];
    let (ids2, _s2) = apply_filters_inner(&lines, &cfg2, &io_map()).expect("filter");
    assert_eq!(ids2, vec![0]);
}

#[test]
fn length_bounds_are_inclusive() {
    let text = "{\"instruction\":\"abc\",\"output\":\"x\"}\n\
                {\"instruction\":\"abcdef\",\"output\":\"x\"}\n";
    let (_store, lines) = ingest("jsonl", text);
    let mut cfg = FilterConfig::default();
    cfg.min_length = Some(3);
    cfg.max_length = Some(3);
    let (ids, _s) = apply_filters_inner(&lines, &cfg, &io_map()).expect("filter");
    assert_eq!(ids, vec![0]);
}

#[test]
fn filter_is_idempotent() {
    let text = "{\"instruction\":\"first one here\",\"output\":\"x\"}\n\
                {\"instruction\":\"second one here\",\"output\":\"y\"}\n";
    let (_store, lines) = ingest("jsonl", text);
    let cfg = FilterConfig::default();
    let (ids1, s1) = apply_filters_inner(&lines, &cfg, &io_map()).expect("first");
    let (ids2, s2) = apply_filters_inner(&lines, &cfg, &io_map()).expect("second");
    assert_eq!(ids1, ids2);
    assert_eq!(s1.filtered_count, s2.filtered_count);
    assert_eq!(s1.duplicates_removed, s2.duplicates_removed);
}

fn category_jsonl(a: usize, b: usize) -> String {
    let mut text = String::new();
    for i in 0..(a + b) {
        let cat = if i < a { "A" } else { "B" };
        text.push_str(&format!(
            "{{\"instruction\":\"task number {}\",\"category\":\"{}\",\"score\":\"0.5\"}}\n",
            i, cat
        ));
    }
    text
}

#[test]
fn stratified_random_sampling_keeps_proportions() {
    let text = category_jsonl(700, 300);
    let (_store, lines) = ingest("jsonl", &text);
    let cfg = DistillConfig {
        target_count: None,
        target_percent: Some(1000),
        strategy: String::from("random"),
        random_seed: Some(1),
        preserve_category_balance: true,
    };
    let fm = FieldMap {
        instruction: Some(String::from("instruction")),
        output: None,
        code: None,
        category: Some(String::from("category")),
        score: Some(String::from("score")),
    };
    let (selected, removed, summary) =
        preview_distillation(&lines, None, &cfg, &fm).expect("preview");
    assert_eq!(selected.len(), 100);
    assert_eq!(removed.len(), 900);
    assert_eq!(summary.selected_count, 100);
    let a_count = selected.iter().filter(|&&id| id < 700).count();
    assert_eq!(a_count, 70);
    assert_eq!(selected.len() - a_count, 30);
}

#[test]
fn importance_selects_top_scores() {
    let text = "{\"instruction\":\"one\",\"score\":\"0.9\"}\n\
                {\"instruction\":\"two\",\"score\":\"0.1\"}\n\
                {\"instruction\":\"three\",\"score\":\"0.5\"}\n\
                {\"instruction\":\"four\",\"score\":\"0.9\"}\n";
    let (_store, lines) = ingest("jsonl", text);
    let cfg = DistillConfig {
        target_count: Some(2),
        target_percent: None,
        strategy: String::from("importance"),
        random_seed: None,
        preserve_category_balance: false,
    };
    let fm = FieldMap {
        instruction: Some(String::from("instruction")),
        output: None,
        code: None,
        category: None,
        score: Some(String::from("score")),
    };
    let (selected, removed, _s) = preview_distillation(&lines, None, &cfg, &fm).expect("preview");
    assert_eq!(selected, vec![0, 3]);
    assert_eq!(removed, vec![1, 2]);
}

#[test]
fn distillation_is_deterministic() {
    let text = category_jsonl(40, 20);
    let (_store, lines) = ingest("jsonl", &text);
    let cfg = DistillConfig {
        target_count: Some(10),
        target_percent: None,
        strategy: String::from("random"),
        random_seed: Some(7),
        preserve_category_balance: false,
    };
    let fm = io_map();
    let first = preview_distillation(&lines, None, &cfg, &fm).expect("first");
    let second = preview_distillation(&lines, None, &cfg, &fm).expect("second");
    assert_eq!(first.0, second.0);
    assert_eq!(first.1, second.1);
}

#[test]
fn distillation_partitions_the_base() {
    let text = category_jsonl(30, 10);
    let (_store, lines) = ingest("jsonl", &text);
    let cfg = DistillConfig {
        target_count: Some(7),
        target_percent: None,
        strategy: String::from("diversity"),
        random_seed: None,
        preserve_category_balance: false,
    };
    let fm = FieldMap {
        instruction: Some(String::from("instruction")),
        output: None,
        code: None,
        category: None,
        score: None,
    };
    let base: Vec<usize> = (0..40).collect();
    let (selected, removed, summary) =
        preview_distillation(&lines, Some(&base), &cfg, &fm).expect("preview");
    assert_eq!(selected.len(), 7);
    assert_eq!(summary.total_count, 40);
    let mut union: Vec<usize> = selected.iter().chain(removed.iter()).cloned().collect();
    union.sort_unstable();
    assert_eq!(union, base);
    for id in &selected {
        assert!(!removed.contains(id));
    }
}

#[test]
fn diversity_covers_every_bucket() {
    // find sixteen seed sentences whose fingerprints land in distinct buckets
    let mut picked: Vec<(String, u16)> = Vec::new();
    let mut salt = 0usize;
    while picked.len() < 16 {
        let cand = format!(
            "subject{} verbs{} object{} extra{} words{}",
            salt,
            salt * 7 + 1,
            salt * 13 + 2,
            salt * 31 + 3,
            salt * 57 + 5
        );
        let bucket = (simhash(&cand) >> 52) as u16;
        if !picked.iter().any(|(_, b)| *b == bucket) {
            picked.push((cand, bucket));
        }
        salt += 1;
    }
    let mut text = String::new();
    for copy in 0..64 {
        for (sentence, _) in &picked {
            let _ = copy;
            text.push_str(&format!("{{\"instruction\":\"{}\"}}\n", sentence));
        }
    }
    let (_store, lines) = ingest("jsonl", &text);
    let cfg = DistillConfig {
        target_count: Some(16),
        target_percent: None,
        strategy: String::from("diversity"),
        random_seed: Some(42),
        preserve_category_balance: false,
    };
    let fm = FieldMap {
        instruction: Some(String::from("instruction")),
        output: None,
        code: None,
        category: None,
        score: None,
    };
    let (selected, _removed, _s) = preview_distillation(&lines, None, &cfg, &fm).expect("preview");
    assert_eq!(selected.len(), 16);
    let mut buckets: Vec<u16> = selected
        .iter()
        .map(|&id| picked[id % 16].1)
        .collect();
    buckets.sort_unstable();
    buckets.dedup();
    assert_eq!(buckets.len(), 16);
}

#[test]
fn manual_override_moves_ids_between_sides() {
    let changes = vec![
        ManualChange { id: 4, keep: true },
        ManualChange { id: 2, keep: false },
    ];
    let (selected, removed, summary) =
        update_manual_selection(vec![1, 2, 3], vec![4, 5], &changes);
    assert_eq!(selected, vec![1, 3, 4]);
    assert_eq!(removed, vec![2, 5]);
    assert_eq!(summary.selected_count, 3);
    assert_eq!(summary.removed_count, 2);
    assert_eq!(summary.total_count, 5);
}

#[test]
fn csv_round_trip_preserves_cells() {
    let (store, lines) = ingest("csv", "a,b\nx,y\nq,\"with,comma\"\n");
    let ids: Vec<usize> = (0..store.record_count).collect();
    let doc = export_dataset(&lines, &ids, &store.fields, "csv").expect("export");
    let rows = datalab::csvfmt::parse_csv(&doc).expect("reparse");
    assert_eq!(rows[0], vec!["a", "b"]);
    assert_eq!(rows[1], vec!["x", "y"]);
    assert_eq!(rows[2], vec!["q", "with,comma"]);
}

#[test]
fn json_export_preserves_record_set() {
    let (store, lines) = ingest("jsonl", "{\"a\":1}\n{\"b\":\"x\"}\n");
    let ids: Vec<usize> = (0..store.record_count).collect();
    let doc = export_dataset(&lines, &ids, &store.fields, "json").expect("export");
    assert_eq!(doc, "[{\"a\":1},\n{\"b\":\"x\"}]");
    let back = parse_json(&doc).expect("array parses");
    match back {
        datalab::json::JsonValue::Arr(items) => assert_eq!(items.len(), 2),
        _ => panic!("expected an array"),
    }
}

#[test]
fn export_rejects_out_of_range_ids() {
    let (_store, lines) = ingest("jsonl", "{\"a\":1}\n");
    let ids = vec![5usize];
    let fields = vec![String::from("a")];
    assert!(matches!(
        export_dataset(&lines, &ids, &fields, "json"),
        Err(DataError::OutOfRange)
    ));
    assert!(matches!(
        read_record_line(&lines, 9),
        Err(DataError::OutOfRange)
    ));
}

#[test]
fn categories_are_counted_and_ranked() {
    let text = "{\"category\":\"b\"}\n{\"category\":\"a\"}\n{\"category\":\"a\"}\n{\"other\":1}\n";
    let (_store, lines) = ingest("jsonl", text);
    let list = collect_categories(&lines, "category").expect("count");
    assert_eq!(list.len(), 2);
    assert_eq!(list[0].name, "a");
    assert_eq!(list[0].count, 2);
    assert_eq!(list[1].name, "b");
    assert_eq!(list[1].count, 1);
}

#[test]
fn view_resolution_pages_and_clips() {
    let filtered = vec![3usize, 5, 8, 13];
    let (ids, total) = resolve_view_ids(Some(&filtered), None, None, 20, "filtered", 2, 3);
    assert_eq!(ids, vec![13]);
    assert_eq!(total, 4);
    let (raw, raw_total) = resolve_view_ids(None, None, None, 5, "raw", 1, 3);
    assert_eq!(raw, vec![0, 1, 2]);
    assert_eq!(raw_total, 5);
    let (none_sel, sel_total) = resolve_view_ids(None, None, None, 5, "selected", 1, 3);
    assert_eq!(none_sel, Vec::<usize>::new());
    assert_eq!(sel_total, 0);
}

#[test]
fn preview_pages_show_role_fields_and_truncate() {
    let long: String = std::iter::repeat('x').take(500).collect();
    let text = format!(
        "{{\"instruction\":\"ask something\",\"output\":\"{}\",\"extra\":\"e\"}}\n",
        long
    );
    let (_store, lines) = ingest("jsonl", &text);
    let page = datalab::view::build_preview_page(&lines, &vec![0usize], 1, 1, 10, &io_map())
        .expect("page");
    assert_eq!(page.items.len(), 1);
    assert_eq!(page.items[0].id, 0);
    let fields = &page.items[0].fields;
    assert_eq!(fields.len(), 2);
    assert_eq!(fields[0].name, "instruction");
    assert_eq!(fields[0].kind, "text");
    assert_eq!(fields[0].value, "ask something");
    assert_eq!(fields[1].name, "output");
    // 480 bytes kept, then the cut marker
    assert_eq!(fields[1].value.len(), 483);
    assert!(fields[1].value.ends_with("..."));
}

#[test]
fn preview_falls_back_to_first_unmapped_fields() {
    let (_store, lines) = ingest("jsonl", "{\"alpha\":\"a\",\"beta\":\"b\",\"gamma\":\"c\"}\n");
    let empty_map = FieldMap {
        instruction: None,
        output: None,
        code: None,
        category: None,
        score: None,
    };
    let page = datalab::view::build_preview_page(&lines, &vec![0usize], 1, 1, 10, &empty_map)
        .expect("page");
    let fields = &page.items[0].fields;
    assert_eq!(fields.len(), 2);
    assert_eq!(fields[0].name, "alpha");
    assert_eq!(fields[1].name, "beta");
}

#[test]
fn default_configurations_match_the_engine_defaults() {
    let f = FilterConfig::default();
    assert!(f.dedupe_exact);
    assert!(!f.dedupe_fuzzy);
    assert_eq!(f.length_scope, "instruction");
    assert!(f.require_fields.is_empty());
    let d = DistillConfig::default();
    assert_eq!(d.strategy, "diversity");
    assert_eq!(d.target_percent, Some(1000));
    assert!(d.target_count.is_none());
    assert!(!d.preserve_category_balance);
}

#[test]
fn preview_fallback_scans_past_role_keys() {
    // the mapped role field is present but blank, so the main fields are
    // empty and its key counts as used; the fallback must still find two
    // other keys further along
    let (_store, lines) =
        ingest("jsonl", "{\"inst\":\" \",\"alpha\":\"a\",\"beta\":\"b\",\"gamma\":\"c\"}\n");
    let fm = FieldMap {
        instruction: Some(String::from("inst")),
        output: None,
        code: None,
        category: None,
        score: None,
    };
    let page =
        datalab::view::build_preview_page(&lines, &vec![0usize], 1, 1, 10, &fm).expect("page");
    let fields = &page.items[0].fields;
    assert_eq!(fields.len(), 2);
    assert_eq!(fields[0].name, "alpha");
    assert_eq!(fields[1].name, "beta");
}
