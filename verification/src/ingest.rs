//! Ingestion: source format detection and decoding of CSV, JSON-array and
//! JSON-lines text into records.

use vstd::prelude::*;
use crate::csvfmt::spec_parse_csv;
use crate::json::{spec_parse_json, JsonSpec, JsonValue, arr_view};
use crate::models::DataError;
use crate::store::{DatasetStore, StoreBuilder, normalize_spec};
use crate::text::is_space_char;
use crate::trusted::{lower_of, to_lower};

verus! {

/// The first character after leading white space.
pub open spec fn first_after_spaces(s: Seq<char>) -> Option<char>
    decreases s.len(),
{
    if s.len() == 0 {
        None
    } else if is_space_char(s[0]) {
        first_after_spaces(s.drop_first())
    } else {
        Some(s[0])
    }
}

/// Runtime form of [`first_after_spaces`].
pub fn head_char(s: &str) -> (r: Option<char>)
    ensures
        r == first_after_spaces(s@),
{
    let cs = crate::text::str_chars(s);
    let n = cs.len();
    let mut i: usize = 0;
    proof {
        assert(s@.skip(0) =~= s@);
    }
    while i < n
        invariant
            i <= n,
            n == s@.len(),
            cs@ == s@,
            first_after_spaces(s@) == first_after_spaces(s@.skip(i as int)),
        decreases n - i,
    {
        proof {
            let rest = s@.skip(i as int);
            assert(rest[0] == s@[i as int]);
            assert(rest.drop_first() =~= s@.skip(i as int + 1));
        }
        if !crate::text::space_char(cs[i]) {
            return Some(cs[i]);
        }
        i = i + 1;
    }
    proof {
        assert(s@.skip(n as int) =~= Seq::<char>::empty());
    }
    None
}

/// The detected source format: by lowercased extension first, else by the
/// first meaningful byte of the head.
pub open spec fn detect_spec(ext: Seq<char>, head: Seq<char>) -> Seq<char> {
    if lower_of(ext) == "csv"@ {
        "csv"@
    } else if lower_of(ext) == "jsonl"@ {
        "jsonl"@
    } else if lower_of(ext) == "json"@ {
        "json"@
    } else {
        let c = first_after_spaces(head);
        if c == Some('[') || c == Some('{') {
            "json"@
        } else {
            "csv"@
        }
    }
}

/// Runtime form of [`detect_spec`].
pub fn detect_format(ext: &str, head: &str) -> (r: String)
    ensures
        r@ == detect_spec(ext@, head@),
{
    let low = to_lower(ext);
    if crate::text::str_eq(low.as_str(), "csv") {
        String::from_str("csv")
    } else if crate::text::str_eq(low.as_str(), "jsonl") {
        String::from_str("jsonl")
    } else if crate::text::str_eq(low.as_str(), "json") {
        String::from_str("json")
    } else {
        match head_char(head) {
            Some(c) => {
                if c == '[' || c == '{' {
                    String::from_str("json")
                } else {
                    String::from_str("csv")
                }
            },
            None => String::from_str("csv"),
        }
    }
}

/// The record one CSV row stands for: each header mapped to its cell as a
/// string, missing cells empty.
pub open spec fn csv_record(headers: Seq<Seq<char>>, row: Seq<Seq<char>>) -> JsonSpec {
    JsonSpec::Obj(
        Seq::new(
            headers.len(),
            |i: int|
                (
                    headers[i],
                    JsonSpec::Str(
                        if i < row.len() {
                            row[i]
                        } else {
                            Seq::empty()
                        },
                    ),
                ),
        ),
    )
}

/// The records of a CSV document: the first row names the fields.
pub open spec fn csv_records(rows: Seq<Seq<Seq<char>>>) -> Seq<JsonSpec> {
    if rows.len() == 0 {
        Seq::empty()
    } else {
        Seq::new((rows.len() - 1) as nat, |i: int| csv_record(rows[0], rows[i + 1]))
    }
}

/// First position at or after `i` holding a line feed, else the length.
pub open spec fn line_end(s: Seq<char>, i: nat) -> nat
    decreases s.len() - i,
{
    if i >= s.len() {
        i
    } else if s[i as int] == '\n' {
        i
    } else {
        line_end(s, i + 1)
    }
}

pub proof fn lemma_line_end_bounds(s: Seq<char>, i: nat)
    ensures
        i <= line_end(s, i),
        i <= s.len() ==> line_end(s, i) <= s.len(),
    decreases s.len() - i,
{
    if i < s.len() && s[i as int] != '\n' {
        lemma_line_end_bounds(s, i + 1);
    }
}

/// A line with a trailing carriage return dropped.
pub open spec fn strip_cr(line: Seq<char>) -> Seq<char> {
    if line.len() > 0 && line[line.len() - 1] == '\r' {
        line.drop_last()
    } else {
        line
    }
}

/// The lines of `s`, split on line feeds, carriage returns stripped.
pub open spec fn split_lines(s: Seq<char>) -> Seq<Seq<char>>
    decreases s.len(),
{
    if s.len() == 0 {
        Seq::empty()
    } else {
        let j = line_end(s, 0);
        proof {
            lemma_line_end_bounds(s, 0);
        }
        if j >= s.len() {
            seq![strip_cr(s)]
        } else {
            seq![strip_cr(s.subrange(0, j as int))] + split_lines(s.skip(j as int + 1))
        }
    }
}

/// The records of JSON-lines text: one JSON value per line, blank lines
/// skipped, each normalized. `None` when any line fails to parse.
pub open spec fn jsonl_records(lines: Seq<Seq<char>>) -> Option<Seq<JsonSpec>>
    decreases lines.len(),
{
    if lines.len() == 0 {
        Some(Seq::empty())
    } else if crate::text::is_blank(lines[0]) {
        jsonl_records(lines.drop_first())
    } else {
        match spec_parse_json(lines[0]) {
            None => None,
            Some(v) => match jsonl_records(lines.drop_first()) {
                None => None,
                Some(rest) => Some(seq![v] + rest),
            },
        }
    }
}

/// Whether the engine knows the format name.
pub open spec fn known_format(format: Seq<char>) -> bool {
    format == "csv"@ || format == "json"@ || format == "jsonl"@
}

/// The records a source text stands for under `format`: CSV rows as string
/// records, a JSON array element by element, anything else line by line.
pub open spec fn ingest_spec(format: Seq<char>, text: Seq<char>) -> Option<Seq<JsonSpec>> {
    if format == "csv"@ {
        match spec_parse_csv(text) {
            Some(rows) => Some(csv_records(rows)),
            None => None,
        }
    } else {
        if first_after_spaces(text) == Some('[') {
            match spec_parse_json(text) {
                Some(v) => match v {
                    JsonSpec::Arr(items) => Some(items),
                    _ => None,
                },
                None => None,
            }
        } else {
            jsonl_records(split_lines(text))
        }
    }
}

/// Runtime CSV decoding per [`csv_records`].
fn csv_to_records(rows: &Vec<Vec<String>>) -> (r: Vec<JsonValue>)
    ensures
        arr_view(r@) == csv_records(rows.deep_view()),
{
    let mut out: Vec<JsonValue> = Vec::new();
    let ghost rv = rows.deep_view();
    if rows.len() == 0 {
        proof {
            crate::json::lemma_arr_view_index(out@);
            assert(arr_view(out@) =~= csv_records(rv));
        }
        return out;
    }
    let n = rows.len();
    let hn = rows[0].len();
    let mut i: usize = 1;
    while i < n
        invariant
            1 <= i <= n,
            n == rows@.len(),
            rv == rows.deep_view(),
            rv.len() == n,
            hn == rows@[0]@.len(),
            out@.len() == i - 1,
            forall|k: int| 0 <= k < i - 1 ==> (#[trigger] out@[k])@ == csv_record(rv[0], rv[k + 1]),
        decreases n - i,
    {
        let mut pairs: Vec<(String, JsonValue)> = Vec::new();
        let mut h: usize = 0;
        while h < hn
            invariant
                h <= hn,
                hn == rows@[0]@.len(),
                1 <= i < n,
                n == rows@.len(),
                rv == rows.deep_view(),
                rv.len() == n,
                pairs@.len() == h,
                forall|k: int|
                    0 <= k < h ==> (#[trigger] pairs@[k]).0@ == rv[0][k] && pairs@[k].1@
                        == JsonSpec::Str(
                        if k < rv[i as int].len() {
                            rv[i as int][k]
                        } else {
                            Seq::empty()
                        },
                    ),
            decreases hn - h,
        {
            let header = rows[0][h].clone();
            let cell: String = if h < rows[i].len() {
                rows[i][h].clone()
            } else {
                String::new()
            };
            proof {
                assert(rv[0] == rows@[0].deep_view());
                assert(rv[0][h as int] == rows@[0]@[h as int]@);
                assert(rv[i as int] == rows@[i as int].deep_view());
                assert(rv[i as int].len() == rows@[i as int]@.len());
                if (h as int) < rv[i as int].len() {
                    assert(rv[i as int][h as int] == rows@[i as int]@[h as int]@);
                }
            }
            pairs.push((header, JsonValue::Str(cell)));
            h = h + 1;
        }
        let ghost obj = JsonValue::Obj(pairs)@;
        proof {
            crate::json::lemma_obj_view_index(pairs@);
            assert(rv[0] == rows@[0].deep_view());
            assert(rv[0].len() == hn);
            let tgt = csv_record(rv[0], rv[i as int]);
            let tm = (tgt) -> Obj_0;
            assert(tm.len() == hn);
            assert forall|k: int| 0 <= k < hn implies crate::json::obj_view(pairs@)[k] == tm[k] by {
                assert(crate::json::obj_view(pairs@)[k] == (
                    pairs@[k].0@,
                    crate::json::json_view(pairs@[k].1),
                ));
                assert(tm[k] == (
                    rv[0][k],
                    JsonSpec::Str(
                        if k < rv[i as int].len() {
                            rv[i as int][k]
                        } else {
                            Seq::empty()
                        },
                    ),
                ));
            }
            assert(crate::json::obj_view(pairs@) =~= tm);
            assert(obj == tgt);
        }
        out.push(JsonValue::Obj(pairs));
        i = i + 1;
    }
    proof {
        crate::json::lemma_arr_view_index(out@);
        assert(arr_view(out@) =~= csv_records(rv));
    }
    out
}

/// Runtime JSON-lines decoding per [`jsonl_records`].
#[verifier::rlimit(100)]
fn jsonl_to_records(text: &str) -> (r: Option<Vec<JsonValue>>)
    ensures
        match r {
            Some(recs) => jsonl_records(split_lines(text@)) == Some(arr_view(recs@)),
            None => jsonl_records(split_lines(text@)) is None,
        },
{
    let cs = crate::text::str_chars(text);
    let n = cs.len();
    let mut out: Vec<JsonValue> = Vec::new();
    let mut i: usize = 0;
    proof {
        crate::json::lemma_arr_view_index(out@);
        assert(text@.skip(0) =~= text@);
    }
    loop
        invariant
            i <= n,
            n == text@.len(),
            cs@ == text@,
            ({
                let r0 = jsonl_records(split_lines(text@));
                match jsonl_records(split_lines(text@.skip(i as int))) {
                    Some(q) => r0 == Some(arr_view(out@) + q),
                    None => r0 is None,
                }
            }),
        decreases n - i,
    {
        if i >= n {
            proof {
                assert(text@.skip(i as int) =~= Seq::<char>::empty());
                assert(split_lines(text@.skip(i as int)) =~= Seq::<Seq<char>>::empty());
                assert(arr_view(out@) + Seq::<JsonSpec>::empty() =~= arr_view(out@));
            }
            return Some(out);
        }
        let ghost rest = text@.skip(i as int);
        // find the line end
        let mut j: usize = i;
        while j < n && cs[j] != '\n'
            invariant
                i <= j <= n,
                n == text@.len(),
                cs@ == text@,
                line_end(text@, i as nat) == line_end(text@, j as nat),
                forall|k: int| i <= k < j ==> text@[k] != '\n',
            decreases n - j,
        {
            j = j + 1;
        }
        proof {
            lemma_line_end_shift(text@, i as nat, j as nat);
            assert(line_end(rest, 0) == j - i);
        }
        let line_to: usize = if j > i && cs[j - 1] == '\r' {
            j - 1
        } else {
            j
        };
        let line = text.substring_char(i, line_to);
        proof {
            if j < n {
                assert(rest.subrange(0, (j - i) as int) =~= text@.subrange(i as int, j as int));
                assert(strip_cr(text@.subrange(i as int, j as int)) =~= text@.subrange(
                    i as int,
                    line_to as int,
                ));
            } else {
                assert(rest =~= text@.subrange(i as int, j as int));
                assert(strip_cr(rest) =~= text@.subrange(i as int, line_to as int));
            }
        }
        let next_i: usize = if j < n {
            j + 1
        } else {
            n
        };
        proof {
            if j < n {
                assert(split_lines(rest) =~= seq![strip_cr(text@.subrange(i as int, j as int))]
                    + split_lines(text@.skip(j as int + 1))) by {
                    assert(rest.skip((j - i) as int + 1) =~= text@.skip(j as int + 1));
                }
            } else {
                assert(split_lines(rest) =~= seq![strip_cr(rest)]);
            }
        }
        if crate::text::blank_str(line) {
            proof {
                let lines_here = split_lines(rest);
                assert(lines_here[0] == text@.subrange(i as int, line_to as int));
                assert(lines_here.drop_first() =~= split_lines(text@.skip(next_i as int)));
            }
            i = next_i;
        } else {
            match crate::json::parse_json(line) {
                None => {
                    proof {
                        let lines_here = split_lines(rest);
                        assert(lines_here[0] == text@.subrange(i as int, line_to as int));
                    }
                    return None;
                },
                Some(v) => {
                    proof {
                        let lines_here = split_lines(rest);
                        assert(lines_here[0] == text@.subrange(i as int, line_to as int));
                        assert(lines_here.drop_first() =~= split_lines(text@.skip(next_i as int)));
                        crate::json::lemma_arr_view_push(out@, v);
                        match jsonl_records(split_lines(text@.skip(next_i as int))) {
                            Some(q) => {
                                assert(arr_view(out@.push(v)) + q =~= arr_view(out@) + (seq![v@]
                                    + q));
                            },
                            None => {},
                        }
                    }
                    out.push(v);
                    i = next_i;
                },
            }
        }
    }
}

pub proof fn lemma_line_end_shift(s: Seq<char>, i: nat, j: nat)
    requires
        i <= j <= s.len(),
        forall|k: int| i <= k < j ==> s[k] != '\n',
        j < s.len() ==> s[j as int] == '\n',
    ensures
        line_end(s.skip(i as int), 0) == j - i,
{
    lemma_line_end_run(s.skip(i as int), 0, (j - i) as nat);
}

pub proof fn lemma_line_end_run(s: Seq<char>, i: nat, j: nat)
    requires
        i <= j <= s.len(),
        forall|k: int| i <= k < j ==> s[k] != '\n',
        j < s.len() ==> s[j as int] == '\n',
    ensures
        line_end(s, i) == j,
    decreases j - i,
{
    if i < j {
        lemma_line_end_run(s, i + 1, j);
    }
}

/// Decode a whole source text under `format`; runtime form of
/// [`ingest_spec`]. Fails with `Unsupported` on an unknown format name and
/// with `Parse` on malformed text.
pub fn ingest_text(format: &str, text: &str) -> (r: Result<Vec<JsonValue>, DataError>)
    ensures
        match r {
            Ok(recs) => known_format(format@) && ingest_spec(format@, text@) == Some(
                arr_view(recs@),
            ),
            Err(e) => {
                ||| (e is Unsupported && !known_format(format@))
                ||| (e is Parse && known_format(format@) && ingest_spec(format@, text@) is None)
            },
        },
{
    let is_csv = crate::text::str_eq(format, "csv");
    let is_json = crate::text::str_eq(format, "json");
    let is_jsonl = crate::text::str_eq(format, "jsonl");
    if !is_csv && !is_json && !is_jsonl {
        return Err(DataError::Unsupported);
    }
    if is_csv {
        match crate::csvfmt::parse_csv(text) {
            None => Err(DataError::Parse),
            Some(rows) => Ok(csv_to_records(&rows)),
        }
    } else {
        let starts_array = match head_char(text) {
            Some(c) => c == '[',
            None => false,
        };
        if starts_array {
            match crate::json::parse_json(text) {
                None => Err(DataError::Parse),
                Some(v) => {
                    match v {
                        JsonValue::Arr(items) => Ok(items),
                        _ => Err(DataError::Parse),
                    }
                },
            }
        } else {
            match jsonl_to_records(text) {
                Some(recs) => Ok(recs),
                None => Err(DataError::Parse),
            }
        }
    }
}

/// The decoded records, normalized.
pub open spec fn norm_records(recs: Seq<JsonSpec>) -> Seq<JsonSpec> {
    Seq::new(recs.len(), |i: int| normalize_spec(recs[i]))
}

/// The store lines the records serialize to.
pub open spec fn store_lines_of(recs: Seq<JsonSpec>) -> Seq<Seq<char>> {
    Seq::new(recs.len(), |i: int| crate::json::json_text(normalize_spec(recs[i])))
}

/// Total byte size of the store file: each line and its line feed.
pub open spec fn store_size(recs: Seq<JsonSpec>) -> int {
    crate::store::line_start(store_lines_of(recs), recs.len() as int)
}

/// Byte starts never shrink along the file.
pub proof fn lemma_line_start_mono_le(lines: Seq<Seq<char>>, i: int, j: int)
    requires
        0 <= i <= j,
    ensures
        crate::store::line_start(lines, i) <= crate::store::line_start(lines, j),
{
    if i < j {
        crate::store::lemma_line_start_mono(lines, i, j);
    }
}

/// Ingest a whole source text into a store: decode, normalize, serialize,
/// index. `lines` is the store file's content, one line per record.
#[verifier::loop_isolation(false)]
pub fn ingest_dataset(
    format: &str,
    text: &str,
    id: String,
    source_path: String,
    store_path: String,
    size_bytes: u64,
) -> (r: Result<(DatasetStore, Vec<String>), DataError>)
    ensures
        match r {
            Ok(p) => {
                &&& known_format(format@)
                &&& ingest_spec(format@, text@) matches Some(recs) && p.0.record_count
                    == recs.len() && store_size(recs) <= u64::MAX && p.0.offsets_wf(
                    p.1.deep_view(),
                ) && (forall|i: int|
                    0 <= i < recs.len() ==> p.1.deep_view()[i] == crate::json::json_text(
                        normalize_spec(#[trigger] recs[i]),
                    ) && normalize_spec(recs[i]) is Obj) && p.0.fields.deep_view()
                    == crate::store::sort_names(crate::store::keys_fold(norm_records(recs)))
                &&& p.0.id@ == id@ && p.0.source_path@ == source_path@ && p.0.store_path@
                    == store_path@ && p.0.size_bytes == size_bytes && p.0.format@ == format@
            },
            Err(e) => {
                ||| (e is Unsupported && !known_format(format@))
                ||| (e is Parse && known_format(format@) && ingest_spec(format@, text@) is None)
                ||| (e is StoreFull && known_format(format@) && (ingest_spec(format@, text@)
                    matches Some(recs) && store_size(recs) > u64::MAX))
            },
        },
{
    let records = match ingest_text(format, text) {
        Ok(recs) => recs,
        Err(e) => {
            return Err(e);
        },
    };
    let ghost recs_spec = arr_view(records@);
    proof {
        crate::json::lemma_arr_view_index(records@);
    }
    let mut builder = StoreBuilder::new();
    let n = records.len();
    let mut i: usize = 0;
    let mut rest = records;
    while rest.len() > 0
        invariant
            i + rest@.len() == n,
            n == recs_spec.len(),
            builder.wf(),
            builder.lines@.len() == i,
            forall|k: int| 0 <= k < rest@.len() ==> (#[trigger] rest@[k])@ == recs_spec[i + k],
            forall|k: int|
                0 <= k < i ==> builder.lines.deep_view()[k] == crate::json::json_text(
                    normalize_spec(#[trigger] recs_spec[k]),
                ) && builder.records@[k] == normalize_spec(recs_spec[k]),
        decreases rest@.len(),
    {
        let rec = rest.remove(0);
        proof {
            assert(rec@ == recs_spec[i as int]);
            assert(forall|k: int|
                0 <= k < rest@.len() ==> (#[trigger] rest@[k])@ == recs_spec[i + 1 + k]);
        }
        let ghost off_before = builder.next_offset;
        match builder.push_record(rec) {
            Ok(()) => {},
            Err(_) => {
                proof {
                    let full = store_lines_of(recs_spec);
                    assert(forall|k: int|
                        0 <= k < i ==> builder.lines.deep_view()[k] == #[trigger] full[k]);
                    crate::store::lemma_line_start_prefix(
                        builder.lines.deep_view(),
                        full,
                        i as int,
                    );
                    assert(off_before == crate::store::line_start(full, i as int));
                    assert(crate::store::line_start(full, i as int + 1) == off_before + crate::text::utf8_len(
                        full[i as int],
                    ) + 1);
                    assert(full[i as int] == crate::json::json_text(
                        normalize_spec(recs_spec[i as int]),
                    ));
                    assert(crate::store::line_start(full, i as int + 1) > u64::MAX);
                    lemma_line_start_mono_le(full, i as int + 1, n as int);
                    assert(store_size(recs_spec) > u64::MAX);
                    assert(known_format(format@));
                    assert(ingest_spec(format@, text@) == Some(recs_spec));
                }
                return Err(DataError::StoreFull);
            },
        }
        i = i + 1;
    }
    proof {
        let full = store_lines_of(recs_spec);
        assert(builder.lines.deep_view() =~= full);
        crate::store::lemma_line_start_prefix(builder.lines.deep_view(), full, n as int);
        assert(store_size(recs_spec) == builder.next_offset);
        assert(store_size(recs_spec) <= u64::MAX);
        assert(builder.records@ =~= norm_records(recs_spec));
    }
    let format_string = crate::trusted::chars_to_string(&crate::text::str_chars(format));
    let (store, lines) = builder.finish(id, source_path, store_path, size_bytes, format_string);
    Ok((store, lines))
}


/// Looking up any header in a CSV-ingested record yields exactly the
/// ingested cell text, the empty string where the row was short.
pub proof fn lemma_csv_cell_content(headers: Seq<Seq<char>>, row: Seq<Seq<char>>, t: int)
    requires
        0 <= t < headers.len(),
        forall|a: int, b: int| 0 <= a < b < headers.len() ==> headers[a] != headers[b],
    ensures
        crate::json::json_get(csv_record(headers, row), headers[t]) == Some(
            JsonSpec::Str(
                if t < row.len() {
                    row[t]
                } else {
                    Seq::empty()
                },
            ),
        ),
{
    lemma_csv_lookup(headers, row, 0, t);
    let pairs = ((csv_record(headers, row)) -> Obj_0);
    assert(csv_pairs_from(headers, row, 0) =~= pairs);
}

/// The members of a CSV record from header position `k` on.
pub open spec fn csv_pairs_from(headers: Seq<Seq<char>>, row: Seq<Seq<char>>, k: int) -> Seq<
    (Seq<char>, JsonSpec),
> {
    Seq::new(
        (headers.len() - k) as nat,
        |i: int|
            (
                headers[k + i],
                JsonSpec::Str(
                    if k + i < row.len() {
                        row[k + i]
                    } else {
                        Seq::empty()
                    },
                ),
            ),
    )
}

proof fn lemma_csv_lookup(headers: Seq<Seq<char>>, row: Seq<Seq<char>>, k: int, t: int)
    requires
        0 <= k <= t < headers.len(),
        forall|a: int, b: int| 0 <= a < b < headers.len() ==> headers[a] != headers[b],
    ensures
        crate::json::obj_lookup(csv_pairs_from(headers, row, k), headers[t]) == Some(
            JsonSpec::Str(
                if t < row.len() {
                    row[t]
                } else {
                    Seq::empty()
                },
            ),
        ),
    decreases t - k,
{
    let pairs = csv_pairs_from(headers, row, k);
    assert(pairs.len() == headers.len() - k);
    assert(pairs[0].0 == headers[k]);
    if k == t {
    } else {
        assert(headers[k] != headers[t]);
        assert(pairs.drop_first() =~= csv_pairs_from(headers, row, k + 1));
        lemma_csv_lookup(headers, row, k + 1, t);
    }
}

/// The exported cell under any header of a CSV-ingested record is the
/// ingested cell text itself.
pub proof fn lemma_csv_export_cell(
    headers: Seq<Seq<char>>,
    row: Seq<Seq<char>>,
    fields: Seq<Seq<char>>,
    j: int,
    t: int,
)
    requires
        0 <= j < fields.len(),
        0 <= t < headers.len(),
        fields[j] == headers[t],
        forall|a: int, b: int| 0 <= a < b < headers.len() ==> headers[a] != headers[b],
    ensures
        crate::export::export_cells(csv_record(headers, row), fields)[j] == (if t < row.len() {
            row[t]
        } else {
            Seq::empty()
        }),
{
    lemma_csv_cell_content(headers, row, t);
}


/// CSV records hold only strings, so they are always well formed.
pub proof fn lemma_csv_record_wf(headers: Seq<Seq<char>>, row: Seq<Seq<char>>)
    ensures
        crate::json::wf_json(csv_record(headers, row)),
{
    let pairs = (csv_record(headers, row)) -> Obj_0;
    lemma_wf_members_strs(pairs);
}

proof fn lemma_wf_members_strs(pairs: Seq<(Seq<char>, JsonSpec)>)
    requires
        forall|k: int| 0 <= k < pairs.len() ==> (#[trigger] pairs[k]).1 is Str,
    ensures
        crate::json::wf_members(pairs),
    decreases pairs.len(),
{
    if pairs.len() > 0 {
        assert(pairs[0].1 is Str);
        match pairs[0].1 {
            JsonSpec::Str(_) => {
                assert(crate::json::wf_json(pairs[0].1));
            },
            _ => {},
        }
        assert(forall|k: int|
            0 <= k < pairs.drop_first().len() ==> (#[trigger] pairs.drop_first()[k]).1
                is Str) by {
            assert(forall|k: int|
                0 <= k < pairs.drop_first().len() ==> pairs.drop_first()[k] == pairs[k + 1]);
        }
        lemma_wf_members_strs(pairs.drop_first());
        assert(crate::json::wf_members(pairs));
    } else {
        assert(crate::json::wf_members(pairs));
    }
}

/// Records of JSON-lines text are well formed.
proof fn lemma_jsonl_records_wf(lines: Seq<Seq<char>>, k: int)
    requires
        jsonl_records(lines) matches Some(recs) && 0 <= k < recs.len(),
    ensures
        jsonl_records(lines) matches Some(recs) ==> crate::json::wf_json(recs[k]),
    decreases lines.len(),
{
    if lines.len() > 0 {
        if crate::text::is_blank(lines[0]) {
            lemma_jsonl_records_wf(lines.drop_first(), k);
        } else {
            match spec_parse_json(lines[0]) {
                None => {},
                Some(v) => {
                    crate::json::lemma_parse_json_wf(lines[0]);
                    if k > 0 {
                        lemma_jsonl_records_wf(lines.drop_first(), k - 1);
                        match jsonl_records(lines.drop_first()) {
                            Some(rest) => {
                                assert((seq![v] + rest)[k] == rest[k - 1]);
                            },
                            None => {},
                        }
                    }
                },
            }
        }
    }
}

/// Every record a source text decodes to is well formed.
pub proof fn lemma_ingest_records_wf(format: Seq<char>, text: Seq<char>, k: int)
    requires
        ingest_spec(format, text) matches Some(recs) && 0 <= k < recs.len(),
    ensures
        ingest_spec(format, text) matches Some(recs) ==> crate::json::wf_json(recs[k]),
{
    if format == "csv"@ {
        match spec_parse_csv(text) {
            Some(rows) => {
                lemma_csv_record_wf(rows[0], rows[k + 1]);
            },
            None => {},
        }
    } else {
        if first_after_spaces(text) == Some('[') {
            match spec_parse_json(text) {
                Some(v) => match v {
                    JsonSpec::Arr(items) => {
                        crate::json::lemma_parse_json_wf(text);
                        crate::json::lemma_wf_items_index(items, k);
                    },
                    _ => {},
                },
                None => {},
            }
        } else {
            lemma_jsonl_records_wf(split_lines(text), k);
        }
    }
}

/// A stored line parses back to its normalized record, which is an object.
pub proof fn lemma_store_line_parses(rec: JsonSpec)
    requires
        crate::json::wf_json(rec),
    ensures
        normalize_spec(rec) is Obj,
        crate::json::spec_parse_json(crate::json::json_text(normalize_spec(rec))) == Some(
            normalize_spec(rec),
        ),
{
    let n = normalize_spec(rec);
    assert(crate::json::wf_json(n)) by {
        match rec {
            JsonSpec::Obj(_) => {},
            _ => {
                let pairs = seq![("value"@, rec)];
                assert(pairs[0].1 == rec);
                assert(pairs.drop_first() =~= Seq::<(Seq<char>, JsonSpec)>::empty());
                assert(crate::json::wf_members(Seq::<(Seq<char>, JsonSpec)>::empty()));
                assert(crate::json::wf_members(pairs));
            },
        }
    }
    crate::json::lemma_json_round_trip(n);
}

/// The store a source text ingests to satisfies the store laws: one offset
/// per record, offsets strictly increasing, and every stored line parsing
/// back to its record, an object.
pub proof fn lemma_ingest_store_laws(
    format: Seq<char>,
    text: Seq<char>,
    recs: Seq<JsonSpec>,
    store: DatasetStore,
    lines: Seq<Seq<char>>,
)
    requires
        ingest_spec(format, text) == Some(recs),
        store.offsets_wf(lines),
        store.record_count == recs.len(),
        forall|i: int|
            0 <= i < recs.len() ==> lines[i] == crate::json::json_text(
                normalize_spec(#[trigger] recs[i]),
            ),
        store.fields.deep_view() == crate::store::sort_names(
            crate::store::keys_fold(norm_records(recs)),
        ),
    ensures
        store.offsets@.len() == store.record_count,
        forall|i: int, j: int|
            0 <= i < j < store.record_count ==> store.offsets@[i] < store.offsets@[j],
        forall|i: int|
            0 <= i < store.record_count ==> (crate::json::spec_parse_json(#[trigger] lines[i])
                matches Some(v) && v is Obj),
        forall|i: int, n: Seq<char>|
            0 <= i < recs.len() && crate::store::rec_has_key(
                normalize_spec(#[trigger] recs[i]),
                n,
            ) ==> #[trigger] store.fields.deep_view().contains(n),
        crate::store::fields_wf(store.fields.deep_view(), norm_records(recs)),
        forall|a: int, b: int|
            0 <= a < b < store.fields.deep_view().len() ==> crate::text::lex_le(
                #[trigger] store.fields.deep_view()[a],
                #[trigger] store.fields.deep_view()[b],
            ),
{
    crate::store::lemma_offsets_increasing(store, lines);
    assert forall|i: int|
        0 <= i < store.record_count implies (crate::json::spec_parse_json(#[trigger] lines[i])
        matches Some(v) && v is Obj) by {
        lemma_ingest_records_wf(format, text, i);
        assert(crate::json::wf_json(recs[i]));
        lemma_store_line_parses(recs[i]);
    }
    assert forall|i: int, n: Seq<char>|
        0 <= i < recs.len() && crate::store::rec_has_key(
            normalize_spec(#[trigger] recs[i]),
            n,
        ) implies #[trigger] store.fields.deep_view().contains(n) by {
        let normd = norm_records(recs);
        assert(normd[i] == normalize_spec(recs[i]));
        assert(crate::store::some_rec_has_key(normd, n));
        crate::store::lemma_keys_fold_contains(normd, n);
        crate::store::lemma_sort_names_contains(crate::store::keys_fold(normd), n);
    }
    let normd = norm_records(recs);
    assert forall|n: Seq<char>| #[trigger] store.fields.deep_view().contains(n)
        <==> crate::store::some_rec_has_key(normd, n) by {
        crate::store::lemma_keys_fold_contains(normd, n);
        crate::store::lemma_sort_names_contains(crate::store::keys_fold(normd), n);
    }
    crate::store::lemma_keys_fold_unique(normd);
    crate::store::lemma_sort_names_unique(crate::store::keys_fold(normd));
    crate::store::lemma_sort_names_sorted(crate::store::keys_fold(normd));
}


/// A value's well-formedness survives normalization.
pub proof fn lemma_normalize_wf(rec: JsonSpec)
    requires
        crate::json::wf_json(rec),
    ensures
        crate::json::wf_json(normalize_spec(rec)),
{
    match rec {
        JsonSpec::Obj(_) => {},
        _ => {
            let pairs = seq![("value"@, rec)];
            assert(pairs[0].1 == rec);
            assert(pairs.drop_first() =~= Seq::<(Seq<char>, JsonSpec)>::empty());
            assert(crate::json::wf_members(Seq::<(Seq<char>, JsonSpec)>::empty()));
            assert(crate::json::wf_members(pairs));
        },
    }
}

/// One exported array element round-trips: a stored line carries no
/// surrounding white space, so the export writes it unchanged and it parses
/// back to exactly its record.
pub proof fn lemma_json_export_element(rec: JsonSpec)
    requires
        crate::json::wf_json(rec),
    ensures
        ({
            let line = crate::json::json_text(normalize_spec(rec));
            crate::text::trim_spec(line) == line && crate::json::spec_parse_json(line) == Some(
                normalize_spec(rec),
            )
        }),
{
    lemma_normalize_wf(rec);
    crate::json::lemma_json_text_no_ws_ends(normalize_spec(rec));
    crate::json::lemma_trim_identity(crate::json::json_text(normalize_spec(rec)));
    crate::json::lemma_json_round_trip(normalize_spec(rec));
}

/// CSV ingest-then-export preserves every cell: for the store built from
/// CSV rows with distinct headers, the cell exported under any header is
/// the ingested cell text, empty where the row was short.
pub proof fn lemma_csv_ingest_export_cell(
    rows: Seq<Seq<Seq<char>>>,
    fields: Seq<Seq<char>>,
    k: int,
    j: int,
    t: int,
)
    requires
        rows.len() >= 1,
        0 <= k < rows.len() - 1,
        0 <= j < fields.len(),
        0 <= t < rows[0].len(),
        fields[j] == rows[0][t],
        forall|a: int, b: int| 0 <= a < b < rows[0].len() ==> rows[0][a] != rows[0][b],
    ensures
        crate::export::export_cells(normalize_spec(csv_records(rows)[k]), fields)[j] == (if t
            < rows[k + 1].len() {
            rows[k + 1][t]
        } else {
            Seq::empty()
        }),
{
    assert(csv_records(rows)[k] == csv_record(rows[0], rows[k + 1]));
    assert(normalize_spec(csv_records(rows)[k]) == csv_record(rows[0], rows[k + 1]));
    lemma_csv_export_cell(rows[0], rows[k + 1], fields, j, t);
}

} // verus!
