//! The filter engine: streaming predicate evaluation with exact and fuzzy
//! duplicate suppression.

use vstd::prelude::*;
use crate::json::{json_get, JsonSpec, JsonValue, spec_parse_json};
use crate::models::{ov, DataError, FieldMap, FilterConfig, FilterSummary};

use crate::records::{
    bit_count, extract_text, hamming_distance, length_text_spec, or_empty, simhash, simhash_spec,
    value_text,
};
use crate::text::{contains_seq, is_blank, is_space_char};
use crate::trusted::lower_of;

verus! {

/// A required field must be there, not null, and if a string not blank.
pub open spec fn field_present(rec: JsonSpec, name: Seq<char>) -> bool {
    match json_get(rec, name) {
        None => false,
        Some(v) => match v {
            JsonSpec::Null => false,
            JsonSpec::Str(t) => !is_blank(t),
            _ => true,
        },
    }
}

/// Every required field is present.
pub open spec fn presence_ok(rec: JsonSpec, required: Seq<Seq<char>>) -> bool {
    forall|i: int| 0 <= i < required.len() ==> field_present(rec, #[trigger] required[i])
}

/// The names whose presence the run demands: the configured list, or the
/// mapped instruction and output fields.
pub open spec fn effective_required(cfg: FilterConfig, fm: FieldMap) -> Seq<Seq<char>> {
    if cfg.require_fields@.len() > 0 {
        cfg.require_fields.deep_view()
    } else {
        (match fm.instruction {
            Some(n) => seq![n@],
            None => Seq::empty(),
        }) + (match fm.output {
            Some(n) => seq![n@],
            None => Seq::empty(),
        })
    }
}

/// Keywords as compared: lowercased unless case-sensitive.
pub open spec fn norm_keywords(ks: Seq<Seq<char>>, case_sensitive: bool) -> Seq<Seq<char>> {
    if case_sensitive {
        ks
    } else {
        Seq::new(ks.len(), |i: int| lower_of(ks[i]))
    }
}

/// The length predicate: Unicode length of the scope text, cast to 32 bits,
/// inside the configured bounds.
pub open spec fn length_ok(rec: JsonSpec, cfg: FilterConfig, fm: FieldMap) -> bool {
    let ltext = length_text_spec(rec, fm, cfg.length_scope@);
    let len32 = (ltext.len() % 0x1_0000_0000) as u32;
    &&& (cfg.min_length matches Some(m) ==> len32 >= m)
    &&& (cfg.max_length matches Some(m) ==> len32 <= m)
}

/// The keyword predicate: every include keyword occurs, no exclude keyword
/// does, in the scope text normalized for case.
pub open spec fn keywords_ok(rec: JsonSpec, cfg: FilterConfig, fm: FieldMap) -> bool {
    let ltext = length_text_spec(rec, fm, cfg.length_scope@);
    let ktext = if cfg.keyword_case_sensitive {
        ltext
    } else {
        lower_of(ltext)
    };
    let inc = norm_keywords(cfg.include_keywords.deep_view(), cfg.keyword_case_sensitive);
    let exc = norm_keywords(cfg.exclude_keywords.deep_view(), cfg.keyword_case_sensitive);
    &&& (forall|i: int| 0 <= i < inc.len() ==> contains_seq(ktext, #[trigger] inc[i]))
    &&& (forall|i: int| 0 <= i < exc.len() ==> !contains_seq(ktext, #[trigger] exc[i]))
}

/// The record's category value as compared: lowercased display text, empty
/// when absent.
pub open spec fn category_value(rec: JsonSpec, cat_field: Seq<char>) -> Seq<char> {
    match json_get(rec, cat_field) {
        Some(v) => lower_of(value_text(v)),
        None => Seq::empty(),
    }
}

/// The category predicate: when a category field and a non-empty category
/// set are configured, the record's value must be among them.
pub open spec fn category_ok(rec: JsonSpec, cfg: FilterConfig, fm: FieldMap) -> bool {
    let cat_field = match cfg.category_field {
        Some(n) => Some(n@),
        None => ov(fm.category),
    };
    match cat_field {
        None => true,
        Some(cf) => {
            if cfg.categories@.len() == 0 {
                true
            } else {
                exists|i: int|
                    0 <= i < cfg.categories@.len() && lower_of(
                        #[trigger] cfg.categories.deep_view()[i],
                    ) == category_value(rec, cf)
            }
        },
    }
}

/// All configured predicates short of deduplication.
pub open spec fn static_pass(rec: JsonSpec, cfg: FilterConfig, fm: FieldMap) -> bool {
    &&& presence_ok(rec, effective_required(cfg, fm))
    &&& length_ok(rec, cfg, fm)
    &&& keywords_ok(rec, cfg, fm)
    &&& category_ok(rec, cfg, fm)
}

/// Maximal runs of non-space characters.
pub open spec fn ws_tokens(s: Seq<char>) -> Seq<Seq<char>>
    decreases s.len(),
{
    if s.len() == 0 {
        Seq::empty()
    } else if is_space_char(s[0]) {
        ws_tokens(s.drop_first())
    } else {
        let k = nonspace_run(s);
        proof {
            lemma_nonspace_run_bounds(s);
        }
        seq![s.subrange(0, k)] + ws_tokens(s.skip(k))
    }
}

/// Length of the leading run of non-space characters.
pub open spec fn nonspace_run(s: Seq<char>) -> int
    decreases s.len(),
{
    if s.len() == 0 || is_space_char(s[0]) {
        0
    } else {
        1 + nonspace_run(s.drop_first())
    }
}

pub proof fn lemma_nonspace_run_bounds(s: Seq<char>)
    ensures
        0 <= nonspace_run(s) <= s.len(),
        s.len() > 0 && !is_space_char(s[0]) ==> nonspace_run(s) >= 1,
    decreases s.len(),
{
    if s.len() > 0 && !is_space_char(s[0]) {
        lemma_nonspace_run_bounds(s.drop_first());
    }
}

/// Tokens joined by single spaces.
pub open spec fn join_sp(ts: Seq<Seq<char>>) -> Seq<char>
    decreases ts.len(),
{
    if ts.len() == 0 {
        Seq::empty()
    } else if ts.len() == 1 {
        ts[0]
    } else {
        ts[0] + seq![' '] + join_sp(ts.drop_first())
    }
}

proof fn lemma_join_sp_push(ts: Seq<Seq<char>>, t: Seq<char>)
    ensures
        join_sp(ts.push(t)) == if ts.len() == 0 {
            t
        } else {
            join_sp(ts) + seq![' '] + t
        },
    decreases ts.len(),
{
    if ts.len() == 0 {
        assert(ts.push(t)[0] == t);
        assert(join_sp(ts.push(t)) == t);
    } else {
        assert(ts.push(t)[0] == ts[0]);
        assert(ts.push(t).drop_first() =~= ts.drop_first().push(t));
        lemma_join_sp_push(ts.drop_first(), t);
        if ts.len() == 1 {
            assert(join_sp(ts.push(t)) =~= join_sp(ts) + seq![' '] + t);
        } else {
            assert(join_sp(ts.push(t)) =~= join_sp(ts) + seq![' '] + t);
        }
    }
}

/// The exact-dedup key: white space collapsed to single spaces, lowercased.
pub open spec fn norm_exact(s: Seq<char>) -> Seq<char> {
    lower_of(join_sp(ws_tokens(s)))
}

/// White space collapsed to single spaces.
pub fn collapse_ws(s: &str) -> (r: String)
    ensures
        r@ == join_sp(ws_tokens(s@)),
{
    let cs = crate::text::str_chars(s);
    let n = cs.len();
    let mut out: Vec<char> = Vec::new();
    let ghost done: Seq<Seq<char>> = Seq::empty();
    let mut first_tok: bool = true;
    let ghost mut done_toks: Seq<Seq<char>> = Seq::empty();
    let mut i: usize = 0;
    proof {
        assert(s@.skip(0) =~= s@);
    }
    while i < n
        invariant
            i <= n,
            n == s@.len(),
            cs@ == s@,
            ws_tokens(s@) == done_toks + ws_tokens(s@.skip(i as int)),
            out@ == join_sp(done_toks),
            first_tok == (done_toks.len() == 0),
        decreases n - i,
    {
        if crate::text::space_char(cs[i]) {
            proof {
                let rest = s@.skip(i as int);
                assert(rest[0] == s@[i as int]);
                assert(rest.drop_first() =~= s@.skip(i as int + 1));
            }
            i = i + 1;
        } else {
            let ghost rest = s@.skip(i as int);
            let mut j: usize = i + 1;
            proof {
                assert(rest[0] == s@[i as int]);
                assert(rest.drop_first() =~= s@.skip(i as int + 1));
                assert(nonspace_run(rest) == 1 + nonspace_run(s@.skip(i as int + 1)));
            }
            while j < n && !crate::text::space_char_ref(&cs, j)
                invariant
                    i < j <= n,
                    n == s@.len(),
                    cs@ == s@,
                    rest == s@.skip(i as int),
                    nonspace_run(rest) == j - i + nonspace_run(s@.skip(j as int)),
                decreases n - j,
            {
                proof {
                    let rj = s@.skip(j as int);
                    assert(rj[0] == s@[j as int]);
                    assert(rj.drop_first() =~= s@.skip(j as int + 1));
                }
                j = j + 1;
            }
            proof {
                let rj = s@.skip(j as int);
                if j < n {
                    assert(rj[0] == s@[j as int]);
                    assert(nonspace_run(rj) == 0);
                } else {
                    assert(rj =~= Seq::<char>::empty());
                    assert(nonspace_run(rj) == 0);
                }
                assert(nonspace_run(rest) == j - i);
                assert(rest.subrange(0, j - i) =~= s@.subrange(i as int, j as int));
                assert(rest.skip(j - i) =~= s@.skip(j as int));
            }
            let ghost tok = s@.subrange(i as int, j as int);
            if !first_tok {
                out.push(' ');
            }
            let mut m: usize = i;
            let ghost out_mark = out@;
            while m < j
                invariant
                    i <= m <= j <= n,
                    n == s@.len(),
                    cs@ == s@,
                    out@ == out_mark + s@.subrange(i as int, m as int),
                decreases j - m,
            {
                out.push(cs[m]);
                proof {
                    assert(out@ =~= out_mark + s@.subrange(i as int, m as int + 1));
                }
                m = m + 1;
            }
            proof {
                lemma_join_sp_push(done_toks, tok);
                assert(out@ =~= join_sp(done_toks.push(tok)));
                done_toks = done_toks.push(tok);
            }
            first_tok = false;
            i = j;
        }
    }
    proof {
        assert(s@.skip(n as int) =~= Seq::<char>::empty());
        assert(done_toks + Seq::<Seq<char>>::empty() =~= done_toks);
    }
    crate::trusted::chars_to_string(&out)
}

/// State the dedup stages carry across records.
pub struct FilterModel {
    pub seen: Seq<Seq<char>>,
    pub buckets: Seq<(u16, Seq<u64>)>,
    pub ids: Seq<usize>,
    pub dups: int,
}

/// The hash list stored under segment key `k`.
pub open spec fn bucket_get(buckets: Seq<(u16, Seq<u64>)>, k: u16) -> Seq<u64>
    decreases buckets.len(),
{
    if buckets.len() == 0 {
        Seq::empty()
    } else if buckets[0].0 == k {
        buckets[0].1
    } else {
        bucket_get(buckets.drop_first(), k)
    }
}

/// `h` appended under segment key `k`.
pub open spec fn bucket_push(buckets: Seq<(u16, Seq<u64>)>, k: u16, h: u64) -> Seq<
    (u16, Seq<u64>),
>
    decreases buckets.len(),
{
    if buckets.len() == 0 {
        seq![(k, seq![h])]
    } else if buckets[0].0 == k {
        seq![(buckets[0].0, buckets[0].1.push(h))] + buckets.drop_first()
    } else {
        seq![buckets[0]] + bucket_push(buckets.drop_first(), k, h)
    }
}

/// The four 16-bit segments of a fingerprint.
pub open spec fn seg(h: u64, which: int) -> u16 {
    ((h >> (16 * which) as u64) & 0xFFFF) as u16
}

/// A stored hash within Hamming distance 3 under one segment key.
pub open spec fn close_in(list: Seq<u64>, h: u64) -> bool {
    exists|i: int| 0 <= i < list.len() && bit_count((#[trigger] list[i]) ^ h) <= 3
}

/// The fingerprint counts as a fuzzy duplicate: some segment's list holds a
/// close hash.
pub open spec fn fuzzy_dup(buckets: Seq<(u16, Seq<u64>)>, h: u64) -> bool {
    ||| close_in(bucket_get(buckets, seg(h, 0)), h)
    ||| close_in(bucket_get(buckets, seg(h, 1)), h)
    ||| close_in(bucket_get(buckets, seg(h, 2)), h)
    ||| close_in(bucket_get(buckets, seg(h, 3)), h)
}

/// The fingerprint filed under all four segment keys.
pub open spec fn bucket_insert4(buckets: Seq<(u16, Seq<u64>)>, h: u64) -> Seq<(u16, Seq<u64>)> {
    bucket_push(bucket_push(bucket_push(bucket_push(buckets, seg(h, 0), h), seg(h, 1), h), seg(h, 2), h), seg(h, 3), h)
}

/// One record through the filter chain.
pub open spec fn fstep(m: FilterModel, rec: JsonSpec, idx: usize, cfg: FilterConfig, fm: FieldMap) -> FilterModel {
    if !static_pass(rec, cfg, fm) {
        m
    } else {
        let itext = or_empty(extract_text(rec, ov(fm.instruction)));
        if cfg.dedupe_exact && itext.len() > 0 && m.seen.contains(norm_exact(itext)) {
            FilterModel { dups: m.dups + 1, ..m }
        } else {
            let m1 = if cfg.dedupe_exact && itext.len() > 0 {
                FilterModel { seen: m.seen.push(norm_exact(itext)), ..m }
            } else {
                m
            };
            if cfg.dedupe_fuzzy && itext.len() > 0 {
                let h = simhash_spec(itext);
                if fuzzy_dup(m1.buckets, h) {
                    FilterModel { dups: m1.dups + 1, ..m1 }
                } else {
                    FilterModel {
                        buckets: bucket_insert4(m1.buckets, h),
                        ids: m1.ids.push(idx),
                        ..m1
                    }
                }
            } else {
                FilterModel { ids: m1.ids.push(idx), ..m1 }
            }
        }
    }
}

/// A store line as the filter sees it: skipped when blank, a record when it
/// parses, a failure otherwise.
pub open spec fn line_record(line: Seq<char>) -> Option<Option<JsonSpec>> {
    if is_blank(line) {
        Some(None)
    } else {
        match spec_parse_json(line) {
            Some(v) => Some(Some(v)),
            None => None,
        }
    }
}

/// The filter run from line `i` onward, starting at state `m`.
pub open spec fn frun(
    lines: Seq<Seq<char>>,
    i: nat,
    m: FilterModel,
    cfg: FilterConfig,
    fm: FieldMap,
) -> Option<FilterModel>
    decreases lines.len() - i,
{
    if i >= lines.len() {
        Some(m)
    } else {
        match line_record(lines[i as int]) {
            None => None,
            Some(None) => frun(lines, i + 1, m, cfg, fm),
            Some(Some(rec)) => frun(lines, i + 1, fstep(m, rec, i as usize, cfg, fm), cfg, fm),
        }
    }
}

/// The empty starting state.
pub open spec fn fmodel0() -> FilterModel {
    FilterModel { seen: Seq::empty(), buckets: Seq::empty(), ids: Seq::empty(), dups: 0 }
}

/// The whole run over a store's lines.
pub open spec fn filter_run_spec(lines: Seq<Seq<char>>, cfg: FilterConfig, fm: FieldMap) -> Option<
    FilterModel,
> {
    frun(lines, 0, fmodel0(), cfg, fm)
}


/// Strictly ascending ids.
pub open spec fn sorted_strict(ids: Seq<usize>) -> bool {
    forall|a: int, b: int| 0 <= a < b < ids.len() ==> ids[a] < ids[b]
}

/// The ids a run yields are strictly ascending and within the store.
pub proof fn lemma_frun_ids(
    lines: Seq<Seq<char>>,
    i: nat,
    m: FilterModel,
    cfg: FilterConfig,
    fm: FieldMap,
)
    requires
        i <= lines.len(),
        lines.len() <= usize::MAX,
        sorted_strict(m.ids),
        forall|k: int| 0 <= k < m.ids.len() ==> (#[trigger] m.ids[k]) < i,
    ensures
        frun(lines, i, m, cfg, fm) matches Some(m2) ==> sorted_strict(m2.ids) && (forall|k: int|
            0 <= k < m2.ids.len() ==> (#[trigger] m2.ids[k]) < lines.len()),
    decreases lines.len() - i,
{
    if i < lines.len() {
        match line_record(lines[i as int]) {
            None => {},
            Some(None) => {
                lemma_frun_ids(lines, i + 1, m, cfg, fm);
            },
            Some(Some(rec)) => {
                let m2 = fstep(m, rec, i as usize, cfg, fm);
                assert(sorted_strict(m2.ids) && (forall|k: int|
                    0 <= k < m2.ids.len() ==> (#[trigger] m2.ids[k]) < i + 1)) by {
                    if m2.ids != m.ids {
                        assert(m2.ids == m.ids.push(i as usize));
                        assert forall|a: int, b: int|
                            0 <= a < b < m2.ids.len() implies m2.ids[a] < m2.ids[b] by {
                            if b < m.ids.len() {
                                assert(m.ids[a] < m.ids[b]);
                            } else {
                                assert(m2.ids[b] == i as usize);
                                assert(m.ids[a] < i);
                            }
                        }
                    }
                }
                lemma_frun_ids(lines, i + 1, m2, cfg, fm);
            },
        }
    }
}

/// Filtering is a function of store and configuration alone: two runs over
/// the same lines with the same configuration yield the same ids, the same
/// counts, the same everything.
pub proof fn lemma_filter_idempotent(
    lines: Seq<Seq<char>>,
    cfg: FilterConfig,
    fm: FieldMap,
    first: FilterModel,
    second: FilterModel,
)
    requires
        filter_run_spec(lines, cfg, fm) == Some(first),
        filter_run_spec(lines, cfg, fm) == Some(second),
    ensures
        first.ids == second.ids,
        first.dups == second.dups,
{
}

/// Runtime form of [`effective_required`].
fn required_list(cfg: &FilterConfig, fm: &FieldMap) -> (r: Vec<String>)
    ensures
        r.deep_view() == effective_required(*cfg, *fm),
{
    if cfg.require_fields.len() > 0 {
        let out = copy_strings(&cfg.require_fields);
        proof {
            assert(out.deep_view() =~= cfg.require_fields.deep_view());
        }
        out
    } else {
        let mut out: Vec<String> = Vec::new();
        match &fm.instruction {
            Some(nm) => {
                out.push(nm.clone());
            },
            None => {},
        }
        match &fm.output {
            Some(nm) => {
                out.push(nm.clone());
            },
            None => {},
        }
        proof {
            assert(out.deep_view() =~= effective_required(*cfg, *fm));
        }
        out
    }
}

/// Runtime form of [`norm_keywords`].
fn normalize_keyword_list(ks: &Vec<String>, case_sensitive: bool) -> (r: Vec<String>)
    ensures
        r.deep_view() == norm_keywords(ks.deep_view(), case_sensitive),
{
    let mut out: Vec<String> = Vec::new();
    let n = ks.len();
    let mut i: usize = 0;
    let ghost goal = norm_keywords(ks.deep_view(), case_sensitive);
    proof {
        assert(goal.len() == ks@.len());
    }
    while i < n
        invariant
            i <= n,
            n == ks@.len(),
            goal == norm_keywords(ks.deep_view(), case_sensitive),
            goal.len() == n,
            out@.len() == i,
            forall|k: int| 0 <= k < i ==> (#[trigger] out@[k])@ == goal[k],
        decreases n - i,
    {
        let piece = if case_sensitive {
            ks[i].clone()
        } else {
            crate::trusted::to_lower(ks[i].as_str())
        };
        proof {
            assert(piece@ == goal[i as int]) by {
                assert(ks.deep_view()[i as int] == ks@[i as int]@);
            }
        }
        out.push(piece);
        i = i + 1;
    }
    proof {
        assert(out.deep_view() =~= goal);
    }
    out
}

/// Elements of a string vector, copied.
fn copy_strings(v: &Vec<String>) -> (r: Vec<String>)
    ensures
        r.deep_view() == v.deep_view(),
{
    let mut out: Vec<String> = Vec::new();
    let n = v.len();
    let mut i: usize = 0;
    while i < n
        invariant
            i <= n,
            n == v@.len(),
            out@.len() == i,
            forall|k: int| 0 <= k < i ==> (#[trigger] out@[k])@ == v@[k]@,
        decreases n - i,
    {
        out.push(v[i].clone());
        i = i + 1;
    }
    proof {
        assert(out.deep_view() =~= v.deep_view());
    }
    out
}

/// Runtime form of [`field_present`].
fn field_present_x(record: &JsonValue, name: &str) -> (r: bool)
    ensures
        r == field_present(record@, name@),
{
    match record.get(name) {
        None => false,
        Some(v) => match v {
            JsonValue::Null => false,
            JsonValue::Str(t) => !crate::text::blank_str(t.as_str()),
            _ => true,
        },
    }
}

/// Runtime form of [`presence_ok`].
fn presence_x(record: &JsonValue, required: &Vec<String>) -> (r: bool)
    ensures
        r == presence_ok(record@, required.deep_view()),
{
    let n = required.len();
    let mut i: usize = 0;
    while i < n
        invariant
            i <= n,
            n == required@.len(),
            forall|k: int| 0 <= k < i ==> field_present(record@, #[trigger] required.deep_view()[k]),
        decreases n - i,
    {
        if !field_present_x(record, required[i].as_str()) {
            proof {
                assert(!field_present(record@, required.deep_view()[i as int]));
            }
            return false;
        }
        i = i + 1;
    }
    true
}

/// Runtime form of [`length_ok`].
fn length_x(record: &JsonValue, cfg: &FilterConfig, fm: &FieldMap) -> (r: bool)
    ensures
        r == length_ok(record@, *cfg, *fm),
{
    let ltext = crate::records::get_length_text(record, fm, cfg.length_scope.as_str());
    let l = crate::records::text_length(ltext.as_str());
    let l64 = l as u64;
    let len32 = (l64 % 0x1_0000_0000) as u32;
    proof {
        assert(len32 == (length_text_spec(record@, *fm, cfg.length_scope@).len()
            % 0x1_0000_0000) as u32);
    }
    let min_pass = match cfg.min_length {
        Some(m) => len32 >= m,
        None => true,
    };
    let max_pass = match cfg.max_length {
        Some(m) => len32 <= m,
        None => true,
    };
    min_pass && max_pass
}

/// Runtime form of [`keywords_ok`].
#[verifier::loop_isolation(false)]
fn keywords_x(
    record: &JsonValue,
    cfg: &FilterConfig,
    fm: &FieldMap,
    inc: &Vec<String>,
    exc: &Vec<String>,
) -> (r: bool)
    requires
        inc.deep_view() == norm_keywords(cfg.include_keywords.deep_view(), cfg.keyword_case_sensitive),
        exc.deep_view() == norm_keywords(cfg.exclude_keywords.deep_view(), cfg.keyword_case_sensitive),
    ensures
        r == keywords_ok(record@, *cfg, *fm),
{
    let ltext = crate::records::get_length_text(record, fm, cfg.length_scope.as_str());
    let ktext = if cfg.keyword_case_sensitive {
        ltext
    } else {
        crate::trusted::to_lower(ltext.as_str())
    };
    let kchars = crate::text::str_chars(ktext.as_str());
    let n_inc = inc.len();
    let mut i: usize = 0;
    while i < n_inc
        invariant
            i <= n_inc,
            n_inc == inc@.len(),
            kchars@ == (if cfg.keyword_case_sensitive {
                length_text_spec(record@, *fm, cfg.length_scope@)
            } else {
                lower_of(length_text_spec(record@, *fm, cfg.length_scope@))
            }),
            forall|k: int| 0 <= k < i ==> contains_seq(kchars@, #[trigger] inc.deep_view()[k]),
        decreases n_inc - i,
    {
        let pat = crate::text::str_chars(inc[i].as_str());
        if !crate::text::contains_chars(&kchars, &pat) {
            proof {
                assert(pat@ == inc.deep_view()[i as int]) by {
                    assert(inc.deep_view()[i as int] == inc@[i as int]@);
                }
                assert(!contains_seq(kchars@, inc.deep_view()[i as int]));
                assert(!keywords_ok(record@, *cfg, *fm)) by {
                    let lt = length_text_spec(record@, *fm, cfg.length_scope@);
                    let kt = if cfg.keyword_case_sensitive {
                        lt
                    } else {
                        lower_of(lt)
                    };
                    let incs = norm_keywords(
                        cfg.include_keywords.deep_view(),
                        cfg.keyword_case_sensitive,
                    );
                    assert(kchars@ == kt);
                    assert(incs[i as int] == inc.deep_view()[i as int]);
                    assert(!contains_seq(kt, incs[i as int]));
                    if keywords_ok(record@, *cfg, *fm) {
                        assert(contains_seq(kt, incs[i as int]));
                        assert(false);
                    }
                }
            }
            return false;
        }
        proof {
            assert(pat@ == inc.deep_view()[i as int]) by {
                assert(inc.deep_view()[i as int] == inc@[i as int]@);
            }
        }
        i = i + 1;
    }
    let n_exc = exc.len();
    let mut i: usize = 0;
    while i < n_exc
        invariant
            i <= n_exc,
            n_exc == exc@.len(),
            kchars@ == (if cfg.keyword_case_sensitive {
                length_text_spec(record@, *fm, cfg.length_scope@)
            } else {
                lower_of(length_text_spec(record@, *fm, cfg.length_scope@))
            }),
            forall|k: int| 0 <= k < n_inc ==> contains_seq(kchars@, #[trigger] inc.deep_view()[k]),
            forall|k: int| 0 <= k < i ==> !contains_seq(kchars@, #[trigger] exc.deep_view()[k]),
        decreases n_exc - i,
    {
        let pat = crate::text::str_chars(exc[i].as_str());
        if crate::text::contains_chars(&kchars, &pat) {
            proof {
                assert(pat@ == exc.deep_view()[i as int]) by {
                    assert(exc.deep_view()[i as int] == exc@[i as int]@);
                }
                assert(contains_seq(kchars@, exc.deep_view()[i as int]));
                assert(!keywords_ok(record@, *cfg, *fm)) by {
                    let lt = length_text_spec(record@, *fm, cfg.length_scope@);
                    let kt = if cfg.keyword_case_sensitive {
                        lt
                    } else {
                        lower_of(lt)
                    };
                    let excs = norm_keywords(
                        cfg.exclude_keywords.deep_view(),
                        cfg.keyword_case_sensitive,
                    );
                    assert(kchars@ == kt);
                    assert(excs[i as int] == exc.deep_view()[i as int]);
                    assert(contains_seq(kt, excs[i as int]));
                    if keywords_ok(record@, *cfg, *fm) {
                        assert(!contains_seq(kt, excs[i as int]));
                        assert(false);
                    }
                }
            }
            return false;
        }
        proof {
            assert(pat@ == exc.deep_view()[i as int]) by {
                assert(exc.deep_view()[i as int] == exc@[i as int]@);
            }
        }
        i = i + 1;
    }
    true
}

/// Runtime form of [`category_ok`].
#[verifier::loop_isolation(false)]
fn category_x(record: &JsonValue, cfg: &FilterConfig, fm: &FieldMap) -> (r: bool)
    ensures
        r == category_ok(record@, *cfg, *fm),
{
    let ghost cfspec: Option<Seq<char>> = match &cfg.category_field {
        Some(n) => Some(n@),
        None => ov(fm.category),
    };
    let cat_field: Option<&String> = match &cfg.category_field {
        Some(n) => Some(n),
        None => match &fm.category {
            Some(n) => Some(n),
            None => None,
        },
    };
    proof {
        match cat_field {
            Some(cf) => {
                assert(cfspec == Some(cf@));
            },
            None => {
                assert(cfspec is None);
            },
        }
    }
    match cat_field {
        None => true,
        Some(cf) => {
            if cfg.categories.len() == 0 {
                true
            } else {
                let value: String = match record.get(cf.as_str()) {
                    Some(v) => crate::trusted::to_lower(crate::records::value_to_string(v).as_str()),
                    None => String::new(),
                };
                proof {
                    assert(value@ == category_value(record@, cf@));
                }
                let n = cfg.categories.len();
                let mut i: usize = 0;
                while i < n
                    invariant
                        i <= n,
                        n == cfg.categories@.len(),
                        value@ == category_value(record@, cf@),
                        forall|k: int|
                            0 <= k < i ==> lower_of(#[trigger] cfg.categories.deep_view()[k])
                                != value@,
                    decreases n - i,
                {
                    let low = crate::trusted::to_lower(cfg.categories[i].as_str());
                    if crate::text::str_eq(low.as_str(), value.as_str()) {
                        proof {
                            assert(cfg.categories.deep_view()[i as int] == cfg.categories@[
                                i as int]@);
                            assert(lower_of(cfg.categories.deep_view()[i as int]) == value@);
                            assert(category_ok(record@, *cfg, *fm)) by {
                                assert(cfspec == Some(cf@));
                                assert(0 <= i < cfg.categories@.len());
                                assert(lower_of(cfg.categories.deep_view()[i as int])
                                    == category_value(record@, cf@));
                            }
                        }
                        return true;
                    }
                    proof {
                        assert(cfg.categories.deep_view()[i as int] == cfg.categories@[i as int]@);
                    }
                    i = i + 1;
                }
                proof {
                    if category_ok(record@, *cfg, *fm) {
                        assert(cfspec == Some(cf@));
                        let k = choose|k: int|
                            0 <= k < cfg.categories@.len() && lower_of(
                                #[trigger] cfg.categories.deep_view()[k],
                            ) == category_value(record@, cf@);
                        assert(false);
                    }
                }
                false
            }
        },
    }
}

/// Runtime form of [`static_pass`].
fn static_pass_x(
    record: &JsonValue,
    cfg: &FilterConfig,
    fm: &FieldMap,
    required: &Vec<String>,
    inc: &Vec<String>,
    exc: &Vec<String>,
) -> (r: bool)
    requires
        required.deep_view() == effective_required(*cfg, *fm),
        inc.deep_view() == norm_keywords(cfg.include_keywords.deep_view(), cfg.keyword_case_sensitive),
        exc.deep_view() == norm_keywords(cfg.exclude_keywords.deep_view(), cfg.keyword_case_sensitive),
    ensures
        r == static_pass(record@, *cfg, *fm),
{
    presence_x(record, required) && length_x(record, cfg, fm) && keywords_x(
        record,
        cfg,
        fm,
        inc,
        exc,
    ) && category_x(record, cfg, fm)
}

/// One 16-bit segment of a fingerprint.
fn seg_x(h: u64, which: usize) -> (r: u16)
    requires
        which < 4,
    ensures
        r == seg(h, which as int),
{
    let sh = (16 * which) as u64;
    let v = (h >> sh) & 0xFFFF;
    proof {
        assert((h >> sh) & 0xFFFF <= 0xFFFF) by (bit_vector);
    }
    v as u16
}

/// Index of the entry under segment key `k`, if any.
fn bucket_find(buckets: &Vec<(u16, Vec<u64>)>, k: u16) -> (r: Option<usize>)
    ensures
        match r {
            Some(ix) => ix < buckets@.len() && buckets@[ix as int].0 == k && bucket_get(
                buckets.deep_view(),
                k,
            ) == buckets@[ix as int].1@ && (forall|t: int|
                0 <= t < ix ==> (#[trigger] buckets@[t]).0 != k),
            None => bucket_get(buckets.deep_view(), k) == Seq::<u64>::empty() && (forall|t: int|
                0 <= t < buckets@.len() ==> (#[trigger] buckets@[t]).0 != k),
        },
{
    let n = buckets.len();
    let mut i: usize = 0;
    proof {
        assert(buckets.deep_view().skip(0) =~= buckets.deep_view());
    }
    while i < n
        invariant
            i <= n,
            n == buckets@.len(),
            bucket_get(buckets.deep_view(), k) == bucket_get(
                buckets.deep_view().skip(i as int),
                k,
            ),
            forall|t: int| 0 <= t < i ==> (#[trigger] buckets@[t]).0 != k,
        decreases n - i,
    {
        proof {
            let dv = buckets.deep_view();
            assert(dv.skip(i as int)[0] == dv[i as int]);
            assert(dv[i as int] == (buckets@[i as int].0, buckets@[i as int].1@));
            assert(dv.skip(i as int).drop_first() =~= dv.skip(i as int + 1));
        }
        if buckets[i].0 == k {
            return Some(i);
        }
        i = i + 1;
    }
    proof {
        assert(buckets.deep_view().skip(n as int) =~= Seq::<(u16, Seq<u64>)>::empty());
    }
    None
}

/// A stored hash close to `h` in the list.
fn close_in_x(list: &Vec<u64>, h: u64) -> (r: bool)
    ensures
        r == close_in(list@, h),
{
    let n = list.len();
    let mut i: usize = 0;
    while i < n
        invariant
            i <= n,
            n == list@.len(),
            forall|k: int| 0 <= k < i ==> bit_count((#[trigger] list@[k]) ^ h) > 3,
        decreases n - i,
    {
        if hamming_distance(list[i], h) <= 3 {
            proof {
                assert(bit_count(list@[i as int] ^ h) <= 3);
            }
            return true;
        }
        i = i + 1;
    }
    proof {
        if close_in(list@, h) {
            let k = choose|k: int| 0 <= k < list@.len() && bit_count((#[trigger] list@[k]) ^ h)
                <= 3;
            assert(false);
        }
    }
    false
}

/// Elements of a u64 vector, copied.
fn copy_u64s(v: &Vec<u64>) -> (r: Vec<u64>)
    ensures
        r@ == v@,
{
    let mut out: Vec<u64> = Vec::new();
    let n = v.len();
    let mut i: usize = 0;
    while i < n
        invariant
            i <= n,
            n == v@.len(),
            out@ =~= v@.subrange(0, i as int),
        decreases n - i,
    {
        out.push(v[i]);
        proof {
            assert(out@ =~= v@.subrange(0, i as int + 1));
        }
        i = i + 1;
    }
    proof {
        assert(out@ =~= v@);
    }
    out
}

/// Appending under a key replaces exactly the first matching entry.
proof fn lemma_bucket_push_at(buckets: Seq<(u16, Seq<u64>)>, k: u16, h: u64, ix: int)
    requires
        0 <= ix < buckets.len(),
        buckets[ix].0 == k,
        forall|t: int| 0 <= t < ix ==> (#[trigger] buckets[t]).0 != k,
    ensures
        bucket_push(buckets, k, h) == buckets.update(ix, (k, buckets[ix].1.push(h))),
    decreases ix,
{
    if ix == 0 {
        assert(bucket_push(buckets, k, h) =~= buckets.update(0, (k, buckets[0].1.push(h))));
    } else {
        assert(buckets.drop_first()[ix - 1] == buckets[ix]);
        assert(forall|t: int|
            0 <= t < ix - 1 ==> (#[trigger] buckets.drop_first()[t]).0 != k) by {
            assert(forall|t: int| 0 <= t < ix - 1 ==> buckets.drop_first()[t] == buckets[t + 1]);
        }
        lemma_bucket_push_at(buckets.drop_first(), k, h, ix - 1);
        assert(bucket_push(buckets, k, h) =~= buckets.update(ix, (k, buckets[ix].1.push(h))));
    }
}

/// Appending under an absent key adds a fresh entry at the end.
proof fn lemma_bucket_push_new(buckets: Seq<(u16, Seq<u64>)>, k: u16, h: u64)
    requires
        forall|t: int| 0 <= t < buckets.len() ==> (#[trigger] buckets[t]).0 != k,
    ensures
        bucket_push(buckets, k, h) == buckets.push((k, seq![h])),
    decreases buckets.len(),
{
    if buckets.len() == 0 {
        assert(bucket_push(buckets, k, h) =~= buckets.push((k, seq![h])));
    } else {
        assert(forall|t: int|
            0 <= t < buckets.drop_first().len() ==> (#[trigger] buckets.drop_first()[t]).0 != k)
            by {
            assert(forall|t: int|
                0 <= t < buckets.drop_first().len() ==> buckets.drop_first()[t] == buckets[t + 1]);
        }
        lemma_bucket_push_new(buckets.drop_first(), k, h);
        assert(bucket_push(buckets, k, h) =~= buckets.push((k, seq![h])));
    }
}

/// File `h` under one segment key.
fn bucket_push_x(buckets: &mut Vec<(u16, Vec<u64>)>, k: u16, h: u64)
    ensures
        final(buckets).deep_view() == bucket_push(old(buckets).deep_view(), k, h),
{
    match bucket_find(buckets, k) {
        Some(ix) => {
            let mut list = copy_u64s(&buckets[ix].1);
            list.push(h);
            let ghost before = buckets.deep_view();
            buckets.set(ix, (k, list));
            proof {
                lemma_bucket_push_at(before, k, h, ix as int);
                assert(buckets.deep_view() =~~= before.update(
                    ix as int,
                    (k, before[ix as int].1.push(h)),
                ));
            }
        },
        None => {
            let ghost before = buckets.deep_view();
            let mut list: Vec<u64> = Vec::new();
            list.push(h);
            buckets.push((k, list));
            proof {
                lemma_bucket_push_new(before, k, h);
                assert(buckets.deep_view() =~~= before.push((k, seq![h])));
            }
        },
    }
}

/// Whether `h` is a fuzzy duplicate of a stored fingerprint.
fn fuzzy_dup_x(buckets: &Vec<(u16, Vec<u64>)>, h: u64) -> (r: bool)
    ensures
        r == fuzzy_dup(buckets.deep_view(), h),
{
    let mut which: usize = 0;
    while which < 4
        invariant
            which <= 4,
            forall|w: int|
                0 <= w < which ==> !close_in(
                    bucket_get(buckets.deep_view(), seg(h, w)),
                    h,
                ),
        decreases 4 - which,
    {
        let k = seg_x(h, which);
        let hit = match bucket_find(buckets, k) {
            Some(ix) => close_in_x(&buckets[ix].1, h),
            None => false,
        };
        if hit {
            proof {
                assert(close_in(bucket_get(buckets.deep_view(), seg(h, which as int)), h));
            }
            return true;
        }
        proof {
            assert(!close_in(bucket_get(buckets.deep_view(), seg(h, which as int)), h));
        }
        which = which + 1;
    }
    false
}

/// Apply the configured filters over a store's lines: one pass, every
/// predicate and both dedup stages; yields the kept ids (ascending) and the
/// run's summary. Fails exactly when a non-blank line does not parse.
pub fn apply_filters_inner(
    lines: &Vec<String>,
    filters: &FilterConfig,
    field_map: &FieldMap,
) -> (r: Result<(Vec<usize>, FilterSummary), DataError>)
    ensures
        match r {
            Ok(p) => {
                &&& filter_run_spec(lines.deep_view(), *filters, *field_map) matches Some(m)
                    && p.0@ == m.ids && p.1.total_count == lines@.len() && p.1.filtered_count
                    == m.ids.len() && p.1.duplicates_removed == m.dups
                &&& sorted_strict(p.0@)
                &&& forall|k: int| 0 <= k < p.0@.len() ==> (#[trigger] p.0@[k]) < lines@.len()
            },
            Err(e) => e is Parse && filter_run_spec(lines.deep_view(), *filters, *field_map)
                is None,
        },
{
    let required = required_list(filters, field_map);
    let inc = normalize_keyword_list(&filters.include_keywords, filters.keyword_case_sensitive);
    let exc = normalize_keyword_list(&filters.exclude_keywords, filters.keyword_case_sensitive);
    let n = lines.len();
    let mut seen: Vec<String> = Vec::new();
    let mut buckets: Vec<(u16, Vec<u64>)> = Vec::new();
    let mut ids: Vec<usize> = Vec::new();
    let mut dups: usize = 0;
    let mut i: usize = 0;
    let ghost ldv = lines.deep_view();
    proof {
        assert(seen.deep_view() =~= Seq::<Seq<char>>::empty());
        assert(buckets.deep_view() =~= Seq::<(u16, Seq<u64>)>::empty());
        assert(fmodel0() == FilterModel {
            seen: seen.deep_view(),
            buckets: buckets.deep_view(),
            ids: ids@,
            dups: dups as int,
        });
    }
    while i < n
        invariant
            i <= n,
            n == lines@.len(),
            ldv == lines.deep_view(),
            dups <= i,
            filter_run_spec(ldv, *filters, *field_map) == frun(
                ldv,
                i as nat,
                FilterModel {
                    seen: seen.deep_view(),
                    buckets: buckets.deep_view(),
                    ids: ids@,
                    dups: dups as int,
                },
                *filters,
                *field_map,
            ),
            required.deep_view() == effective_required(*filters, *field_map),
            inc.deep_view() == norm_keywords(
                filters.include_keywords.deep_view(),
                filters.keyword_case_sensitive,
            ),
            exc.deep_view() == norm_keywords(
                filters.exclude_keywords.deep_view(),
                filters.keyword_case_sensitive,
            ),
        decreases n - i,
    {
        let ghost m_here = FilterModel {
            seen: seen.deep_view(),
            buckets: buckets.deep_view(),
            ids: ids@,
            dups: dups as int,
        };
        proof {
            assert(ldv[i as int] == lines@[i as int]@);
        }
        if crate::text::blank_str(lines[i].as_str()) {
            proof {
                assert(line_record(ldv[i as int]) == Some(Option::<JsonSpec>::None));
            }
            i = i + 1;
            continue ;
        }
        let rec = match crate::json::parse_json(lines[i].as_str()) {
            Some(v) => v,
            None => {
                proof {
                    assert(line_record(ldv[i as int]) is None);
                }
                return Err(DataError::Parse);
            },
        };
        proof {
            assert(line_record(ldv[i as int]) == Some(Some(rec@)));
        }
        let passes = static_pass_x(&rec, filters, field_map, &required, &inc, &exc);
        if !passes {
            proof {
                assert(fstep(m_here, rec@, i as usize, *filters, *field_map) == m_here);
            }
            i = i + 1;
            continue ;
        }
        let itext = crate::records::text_or_empty(&rec, &field_map.instruction);
        let has_itext = !itext.as_str().is_empty();
        let mut dropped: bool = false;
        if filters.dedupe_exact && has_itext {
            let key = crate::trusted::to_lower(collapse_ws(itext.as_str()).as_str());
            proof {
                assert(key@ == norm_exact(itext@));
            }
            if crate::store::names_contain(&seen, key.as_str()) {
                dups = dups + 1;
                dropped = true;
                proof {
                    let m2 = fstep(m_here, rec@, i as usize, *filters, *field_map);
                    assert(m2 == FilterModel { dups: m_here.dups + 1, ..m_here });
                }
            } else {
                let ghost seen0 = seen.deep_view();
                seen.push(key);
                proof {
                    assert(seen.deep_view() =~= seen0.push(norm_exact(itext@)));
                }
            }
        }
        if !dropped {
            let ghost m1 = FilterModel {
                seen: seen.deep_view(),
                buckets: buckets.deep_view(),
                ids: ids@,
                dups: dups as int,
            };
            if filters.dedupe_fuzzy && has_itext {
                let h = simhash(itext.as_str());
                if fuzzy_dup_x(&buckets, h) {
                    dups = dups + 1;
                    proof {
                        let m2 = fstep(m_here, rec@, i as usize, *filters, *field_map);
                        assert(m2 == FilterModel { dups: m1.dups + 1, ..m1 });
                    }
                } else {
                    bucket_push_x(&mut buckets, seg_x(h, 0), h);
                    bucket_push_x(&mut buckets, seg_x(h, 1), h);
                    bucket_push_x(&mut buckets, seg_x(h, 2), h);
                    bucket_push_x(&mut buckets, seg_x(h, 3), h);
                    ids.push(i);
                    proof {
                        let m2 = fstep(m_here, rec@, i as usize, *filters, *field_map);
                        assert(buckets.deep_view() == bucket_insert4(m1.buckets, h));
                        assert(m2 == FilterModel {
                            buckets: bucket_insert4(m1.buckets, h),
                            ids: m1.ids.push(i as usize),
                            ..m1
                        });
                    }
                }
            } else {
                ids.push(i);
                proof {
                    let m2 = fstep(m_here, rec@, i as usize, *filters, *field_map);
                    assert(m2 == FilterModel { ids: m1.ids.push(i as usize), ..m1 });
                }
            }
        }
        i = i + 1;
    }
    proof {
        let m_end = FilterModel {
            seen: seen.deep_view(),
            buckets: buckets.deep_view(),
            ids: ids@,
            dups: dups as int,
        };
        assert(frun(ldv, n as nat, m_end, *filters, *field_map) == Some(m_end));
        lemma_frun_ids(ldv, 0, fmodel0(), *filters, *field_map);
    }
    let summary = FilterSummary {
        total_count: n,
        filtered_count: ids.len(),
        duplicates_removed: dups,
    };
    Ok((ids, summary))
}


/// Most frequent categories first, ties in arrival order.
impl crate::sorting::SortKey for crate::models::CategoryCount {
    open spec fn leq_spec(self, other: Self) -> bool {
        self.count >= other.count
    }

    fn leq(&self, other: &Self) -> (r: bool) {
        self.count >= other.count
    }

    proof fn leq_total(a: Self, b: Self) {
    }

    proof fn leq_trans(a: Self, b: Self, c: Self) {
    }
}

/// The count stored under a category value.
pub open spec fn cc_get(cs: Seq<(Seq<char>, usize)>, k: Seq<char>) -> usize
    decreases cs.len(),
{
    if cs.len() == 0 {
        0
    } else if cs[0].0 == k {
        cs[0].1
    } else {
        cc_get(cs.drop_first(), k)
    }
}

/// The count under `k` bumped, new values appended with count one.
pub open spec fn cc_bump(cs: Seq<(Seq<char>, usize)>, k: Seq<char>) -> Seq<(Seq<char>, usize)>
    decreases cs.len(),
{
    if cs.len() == 0 {
        seq![(k, 1usize)]
    } else if cs[0].0 == k {
        seq![(cs[0].0, ((cs[0].1 + 1) as usize))] + cs.drop_first()
    } else {
        seq![cs[0]] + cc_bump(cs.drop_first(), k)
    }
}

/// Category counts over the store from line `i`: blank lines skipped, the
/// field's display text counted where the field is there.
pub open spec fn cc_run(
    lines: Seq<Seq<char>>,
    field: Seq<char>,
    i: nat,
    cs: Seq<(Seq<char>, usize)>,
) -> Option<Seq<(Seq<char>, usize)>>
    decreases lines.len() - i,
{
    if i >= lines.len() {
        Some(cs)
    } else if is_blank(lines[i as int]) {
        cc_run(lines, field, i + 1, cs)
    } else {
        match spec_parse_json(lines[i as int]) {
            None => None,
            Some(rec) => match json_get(rec, field) {
                Some(v) => cc_run(lines, field, i + 1, cc_bump(cs, value_text(v))),
                None => cc_run(lines, field, i + 1, cs),
            },
        }
    }
}

/// The views of a category count list.
pub open spec fn cc_views(cc: Seq<crate::models::CategoryCount>) -> Seq<(Seq<char>, usize)> {
    Seq::new(cc.len(), |i: int| (cc[i].name@, cc[i].count))
}

proof fn lemma_cc_bump_at(cs: Seq<(Seq<char>, usize)>, k: Seq<char>, ix: int)
    requires
        0 <= ix < cs.len(),
        cs[ix].0 == k,
        forall|t: int| 0 <= t < ix ==> (#[trigger] cs[t]).0 != k,
        cs[ix].1 < usize::MAX,
    ensures
        cc_bump(cs, k) == cs.update(ix, (k, (cs[ix].1 + 1) as usize)),
    decreases ix,
{
    if ix == 0 {
        assert(cc_bump(cs, k) =~= cs.update(0, (k, (cs[0].1 + 1) as usize)));
    } else {
        assert(cs.drop_first()[ix - 1] == cs[ix]);
        assert(forall|t: int| 0 <= t < ix - 1 ==> (#[trigger] cs.drop_first()[t]).0 != k) by {
            assert(forall|t: int| 0 <= t < ix - 1 ==> cs.drop_first()[t] == cs[t + 1]);
        }
        lemma_cc_bump_at(cs.drop_first(), k, ix - 1);
        assert(cc_bump(cs, k) =~= cs.update(ix, (k, (cs[ix].1 + 1) as usize)));
    }
}

proof fn lemma_cc_bump_new(cs: Seq<(Seq<char>, usize)>, k: Seq<char>)
    requires
        forall|t: int| 0 <= t < cs.len() ==> (#[trigger] cs[t]).0 != k,
    ensures
        cc_bump(cs, k) == cs.push((k, 1usize)),
    decreases cs.len(),
{
    if cs.len() == 0 {
        assert(cc_bump(cs, k) =~= cs.push((k, 1usize)));
    } else {
        assert(forall|t: int|
            0 <= t < cs.drop_first().len() ==> (#[trigger] cs.drop_first()[t]).0 != k) by {
            assert(forall|t: int|
                0 <= t < cs.drop_first().len() ==> cs.drop_first()[t] == cs[t + 1]);
        }
        lemma_cc_bump_new(cs.drop_first(), k);
        assert(cc_bump(cs, k) =~= cs.push((k, 1usize)));
    }
}

/// How often each value of `field` occurs across the store, most frequent
/// first. Fails exactly when a non-blank line does not parse.
#[verifier::loop_isolation(false)]
#[verifier::rlimit(60)]
pub fn collect_categories(lines: &Vec<String>, field: &str) -> (r: Result<
    Vec<crate::models::CategoryCount>,
    DataError,
>)
    ensures
        match r {
            Ok(list) => exists|cc: Seq<crate::models::CategoryCount>|
                {
                    &&& cc_run(lines.deep_view(), field@, 0, Seq::empty()) == Some(
                        #[trigger] cc_views(cc),
                    )
                    &&& list@ == crate::sorting::sort_elems(cc)
                },
            Err(e) => e is Parse && cc_run(lines.deep_view(), field@, 0, Seq::empty()) is None,
        },
{
    let n = lines.len();
    let ghost ldv = lines.deep_view();
    let mut counts: Vec<crate::models::CategoryCount> = Vec::new();
    let mut i: usize = 0;
    proof {
        assert(cc_views(counts@) =~= Seq::<(Seq<char>, usize)>::empty());
    }
    while i < n
        invariant
            i <= n,
            n == lines@.len(),
            cc_run(ldv, field@, 0, Seq::empty()) == cc_run(ldv, field@, i as nat, cc_views(counts@)),
            forall|k: int|
                0 <= k < counts@.len() ==> 1 <= (#[trigger] counts@[k]).count <= i,
        decreases n - i,
    {
        proof {
            assert(ldv[i as int] == lines@[i as int]@);
        }
        if crate::text::blank_str(lines[i].as_str()) {
            i = i + 1;
            continue ;
        }
        let rec = match crate::json::parse_json(lines[i].as_str()) {
            Some(v) => v,
            None => {
                return Err(DataError::Parse);
            },
        };
        match rec.get(field) {
            Some(v) => {
                let key = crate::records::value_to_string(v);
                let ghost cs0 = cc_views(counts@);
                let cn = counts.len();
                let mut t: usize = 0;
                let mut found: bool = false;
                while t < cn && !found
                    invariant
                        t <= cn,
                        cn == counts@.len(),
                        !found ==> forall|w: int|
                            0 <= w < t ==> (#[trigger] cs0[w]).0 != key@,
                        found ==> t >= 1 && t - 1 < cn && cs0[t as int - 1].0 == key@ && (
                        forall|w: int| 0 <= w < t - 1 ==> (#[trigger] cs0[w]).0 != key@),
                        cs0 == cc_views(counts@),
                    decreases cn - t,
                {
                    if crate::text::str_eq(counts[t].name.as_str(), key.as_str()) {
                        proof {
                            assert(cs0[t as int].0 == key@);
                        }
                        found = true;
                    }
                    t = t + 1;
                }
                if found {
                    let ix = t - 1;
                    let old_count = counts[ix].count;
                    proof {
                        assert(cs0[ix as int].1 == old_count);
                        assert(old_count >= 1);
                    }
                    proof {
                        assert(old_count <= i);
                        assert(old_count < usize::MAX);
                    }
                    let name2 = counts[ix].name.clone();
                    counts.set(
                        ix,
                        crate::models::CategoryCount { name: name2, count: old_count + 1 },
                    );
                    proof {
                        lemma_cc_bump_at(cs0, key@, ix as int);
                        assert(cc_views(counts@) =~= cs0.update(
                            ix as int,
                            (key@, (old_count + 1) as usize),
                        ));
                    }
                } else {
                    let ghost before = cc_views(counts@);
                    counts.push(crate::models::CategoryCount { name: key, count: 1 });
                    proof {
                        lemma_cc_bump_new(before, key@);
                        assert(cc_views(counts@) =~= before.push((key@, 1usize)));
                    }
                }
            },
            None => {},
        }
        i = i + 1;
    }
    let ghost final_cc = counts@;
    let sorted = crate::sorting::insertion_sort(&mut counts);
    proof {
        assert(cc_run(ldv, field@, n as nat, cc_views(final_cc)) == Some(cc_views(final_cc)));
    }
    Ok(sorted)
}


/// How many records from line `i` on parse and pass every static predicate.
pub open spec fn static_pass_count(
    lines: Seq<Seq<char>>,
    i: nat,
    cfg: FilterConfig,
    fm: FieldMap,
) -> int
    decreases lines.len() - i,
{
    if i >= lines.len() {
        0
    } else {
        match line_record(lines[i as int]) {
            None => 0,
            Some(None) => static_pass_count(lines, i + 1, cfg, fm),
            Some(Some(rec)) => (if static_pass(rec, cfg, fm) {
                1int
            } else {
                0int
            }) + static_pass_count(lines, i + 1, cfg, fm),
        }
    }
}

/// Duplicates are counted from the statically passing records alone: over
/// any run, the kept ids and the removed duplicates together grow by
/// exactly the number of records that pass presence, length, keyword and
/// category; a record rejected by those predicates moves neither number.
pub proof fn lemma_filter_counts(
    lines: Seq<Seq<char>>,
    i: nat,
    m: FilterModel,
    cfg: FilterConfig,
    fm: FieldMap,
)
    ensures
        frun(lines, i, m, cfg, fm) matches Some(m2) ==> m2.ids.len() + m2.dups == m.ids.len()
            + m.dups + static_pass_count(lines, i, cfg, fm),
    decreases lines.len() - i,
{
    if i < lines.len() {
        match line_record(lines[i as int]) {
            None => {},
            Some(None) => {
                lemma_filter_counts(lines, i + 1, m, cfg, fm);
            },
            Some(Some(rec)) => {
                let m2 = fstep(m, rec, i as usize, cfg, fm);
                assert(m2.ids.len() + m2.dups == m.ids.len() + m.dups + (if static_pass(
                    rec,
                    cfg,
                    fm,
                ) {
                    1int
                } else {
                    0int
                }));
                lemma_filter_counts(lines, i + 1, m2, cfg, fm);
            },
        }
    }
}

} // verus!
