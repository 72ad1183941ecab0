//! The record store: one serialized JSON object per line, with byte offsets
//! for random access and the sorted union of all field names.

use vstd::prelude::*;
use crate::json::{json_text, JsonSpec, JsonValue, to_json_text};
use crate::models::DataError;
use crate::sorting::{insertion_sort, sort_elems, SortKey};
use crate::text::{lex_le, str_le, utf8_len, lemma_lex_le_total, lemma_lex_le_trans};

verus! {

/// Byte offset where line `i` starts, each line ended by one LF.
pub open spec fn line_start(lines: Seq<Seq<char>>, i: int) -> int
    decreases i,
{
    if i <= 0 {
        0
    } else {
        line_start(lines, i - 1) + utf8_len(lines[i - 1]) + 1
    }
}

pub proof fn lemma_line_start_mono(lines: Seq<Seq<char>>, i: int, j: int)
    requires
        0 <= i < j,
    ensures
        line_start(lines, i) < line_start(lines, j),
    decreases j - i,
{
    if j - 1 > i {
        lemma_line_start_mono(lines, i, j - 1);
    }
}

/// A record holds `name` among its members.
pub open spec fn rec_has_key(r: JsonSpec, name: Seq<char>) -> bool {
    match r {
        JsonSpec::Obj(pairs) => exists|k: int| 0 <= k < pairs.len() && (#[trigger] pairs[k]).0
            == name,
        _ => false,
    }
}

/// Some record holds `name`.
pub open spec fn some_rec_has_key(records: Seq<JsonSpec>, name: Seq<char>) -> bool {
    exists|i: int| 0 <= i < records.len() && rec_has_key(#[trigger] records[i], name)
}

/// `fields` lists exactly the keys occurring in `records`, each once.
pub open spec fn fields_wf(fields: Seq<Seq<char>>, records: Seq<JsonSpec>) -> bool {
    &&& forall|n: Seq<char>| #[trigger] fields.contains(n) <==> some_rec_has_key(records, n)
    &&& forall|i: int, j: int| 0 <= i < j < fields.len() ==> fields[i] != fields[j]
}

/// `n` appended to a key list unless already there.
pub open spec fn key_push(keys: Seq<Seq<char>>, n: Seq<char>) -> Seq<Seq<char>> {
    if keys.contains(n) {
        keys
    } else {
        keys.push(n)
    }
}

/// A record's member keys from position `t` on, folded into a key list.
pub open spec fn rec_keys_from(
    keys: Seq<Seq<char>>,
    pairs: Seq<(Seq<char>, JsonSpec)>,
    t: nat,
) -> Seq<Seq<char>>
    decreases pairs.len() - t,
{
    if t >= pairs.len() {
        keys
    } else {
        rec_keys_from(key_push(keys, pairs[t as int].0), pairs, t + 1)
    }
}

/// A record's keys folded into a key list.
pub open spec fn rec_keys(keys: Seq<Seq<char>>, rec: JsonSpec) -> Seq<Seq<char>> {
    match rec {
        JsonSpec::Obj(pairs) => rec_keys_from(keys, pairs, 0),
        _ => keys,
    }
}

/// The union of keys across records, in order of first appearance.
pub open spec fn keys_fold(recs: Seq<JsonSpec>) -> Seq<Seq<char>>
    decreases recs.len(),
{
    if recs.len() == 0 {
        Seq::empty()
    } else {
        rec_keys(keys_fold(recs.drop_last()), recs.last())
    }
}

/// A name placed into a key list before the first lexicographically larger
/// one.
pub open spec fn insert_name(s: Seq<Seq<char>>, n: Seq<char>) -> Seq<Seq<char>>
    decreases s.len(),
{
    if s.len() == 0 {
        seq![n]
    } else if lex_le(s[0], n) {
        seq![s[0]] + insert_name(s.drop_first(), n)
    } else {
        seq![n] + s
    }
}

/// A key list sorted lexicographically by insertion.
pub open spec fn sort_names(s: Seq<Seq<char>>) -> Seq<Seq<char>>
    decreases s.len(),
{
    if s.len() == 0 {
        s
    } else {
        insert_name(sort_names(s.drop_last()), s.last())
    }
}

/// The views of a string list.
pub open spec fn names_of(s: Seq<String>) -> Seq<Seq<char>> {
    Seq::new(s.len(), |i: int| s[i]@)
}

proof fn lemma_insert_name_views(t: Seq<String>, x: String)
    ensures
        names_of(crate::sorting::insert_sorted(t, x)) == insert_name(names_of(t), x@),
    decreases t.len(),
{
    if t.len() == 0 {
        assert(names_of(crate::sorting::insert_sorted(t, x)) =~= insert_name(names_of(t), x@));
    } else {
        assert(names_of(t)[0] == t[0]@);
        lemma_insert_name_views(t.drop_first(), x);
        assert(names_of(t.drop_first()) =~= names_of(t).drop_first());
        if t[0].leq_spec(x) {
            assert(names_of(seq![t[0]] + crate::sorting::insert_sorted(t.drop_first(), x))
                =~= seq![t[0]@] + names_of(crate::sorting::insert_sorted(t.drop_first(), x)));
            assert(insert_name(names_of(t), x@) =~= seq![names_of(t)[0]] + insert_name(
                names_of(t).drop_first(),
                x@,
            ));
        } else {
            assert(names_of(seq![x] + t) =~= seq![x@] + names_of(t));
        }
    }
}

/// Sorting strings and sorting their views agree.
pub proof fn lemma_sort_names_views(s: Seq<String>)
    ensures
        names_of(sort_elems(s)) == sort_names(names_of(s)),
    decreases s.len(),
{
    if s.len() > 0 {
        lemma_sort_names_views(s.drop_last());
        lemma_insert_name_views(sort_elems(s.drop_last()), s.last());
        assert(names_of(s.drop_last()) =~= names_of(s).drop_last());
        assert(names_of(s).last() == s.last()@);
    }
}

pub proof fn lemma_key_push_contains(keys: Seq<Seq<char>>, n: Seq<char>, m: Seq<char>)
    ensures
        key_push(keys, n).contains(m) <==> keys.contains(m) || m == n,
{
    if !keys.contains(n) {
        assert(keys.push(n)[keys.len() as int] == n);
        if key_push(keys, n).contains(m) {
            let w = choose|w: int| 0 <= w < keys.push(n).len() && keys.push(n)[w] == m;
            if w < keys.len() {
                assert(keys[w] == m);
            }
        }
        if keys.contains(m) {
            let w = choose|w: int| 0 <= w < keys.len() && keys[w] == m;
            assert(keys.push(n)[w] == m);
        }
    }
}

proof fn lemma_rec_keys_from_contains(
    keys: Seq<Seq<char>>,
    pairs: Seq<(Seq<char>, JsonSpec)>,
    t: nat,
    m: Seq<char>,
)
    ensures
        rec_keys_from(keys, pairs, t).contains(m) <==> keys.contains(m) || exists|k: int|
            t <= k < pairs.len() && (#[trigger] pairs[k]).0 == m,
    decreases pairs.len() - t,
{
    if t < pairs.len() {
        lemma_rec_keys_from_contains(key_push(keys, pairs[t as int].0), pairs, t + 1, m);
        lemma_key_push_contains(keys, pairs[t as int].0, m);
    }
}

/// A key appears in the fold exactly when some record holds it.
pub proof fn lemma_keys_fold_contains(recs: Seq<JsonSpec>, m: Seq<char>)
    ensures
        keys_fold(recs).contains(m) <==> some_rec_has_key(recs, m),
    decreases recs.len(),
{
    if recs.len() == 0 {
        if keys_fold(recs).contains(m) {
            let w = choose|w: int| 0 <= w < keys_fold(recs).len() && keys_fold(recs)[w] == m;
            assert(false);
        }
        if some_rec_has_key(recs, m) {
            let i = choose|i: int| 0 <= i < recs.len() && rec_has_key(#[trigger] recs[i], m);
            assert(false);
        }
    } else {
        let prev = recs.drop_last();
        lemma_keys_fold_contains(prev, m);
        match recs.last() {
            JsonSpec::Obj(pairs) => {
                lemma_rec_keys_from_contains(keys_fold(prev), pairs, 0, m);
            },
            _ => {},
        }
        assert(keys_fold(recs).contains(m) <==> keys_fold(prev).contains(m) || rec_has_key(
            recs.last(),
            m,
        ));
        assert(some_rec_has_key(recs, m) <==> some_rec_has_key(prev, m) || rec_has_key(
            recs.last(),
            m,
        )) by {
            if some_rec_has_key(recs, m) {
                let i = choose|i: int| 0 <= i < recs.len() && rec_has_key(#[trigger] recs[i], m);
                if i < prev.len() {
                    assert(prev[i] == recs[i]);
                    assert(some_rec_has_key(prev, m));
                }
            }
            if some_rec_has_key(prev, m) {
                let i = choose|i: int| 0 <= i < prev.len() && rec_has_key(#[trigger] prev[i], m);
                assert(recs[i] == prev[i]);
                assert(some_rec_has_key(recs, m));
            }
            if rec_has_key(recs.last(), m) {
                assert(some_rec_has_key(recs, m));
            }
        }
    }
}

pub proof fn lemma_insert_name_contains(s: Seq<Seq<char>>, n: Seq<char>, m: Seq<char>)
    ensures
        insert_name(s, n).contains(m) <==> s.contains(m) || m == n,
    decreases s.len(),
{
    if s.len() == 0 {
        assert(insert_name(s, n)[0] == n);
        if insert_name(s, n).contains(m) {
            let w = choose|w: int| 0 <= w < insert_name(s, n).len() && insert_name(s, n)[w] == m;
            assert(w == 0);
        }
    } else if lex_le(s[0], n) {
        lemma_insert_name_contains(s.drop_first(), n, m);
        let r = seq![s[0]] + insert_name(s.drop_first(), n);
        if r.contains(m) {
            let w = choose|w: int| 0 <= w < r.len() && r[w] == m;
            if w > 0 {
                assert(insert_name(s.drop_first(), n)[w - 1] == m);
            } else {
                assert(s[0] == m);
            }
        }
        if s.contains(m) {
            let w = choose|w: int| 0 <= w < s.len() && s[w] == m;
            if w > 0 {
                assert(s.drop_first()[w - 1] == m);
                assert(s.drop_first().contains(m));
                assert(insert_name(s.drop_first(), n).contains(m));
                let w2 = choose|w2: int|
                    0 <= w2 < insert_name(s.drop_first(), n).len() && insert_name(
                        s.drop_first(),
                        n,
                    )[w2] == m;
                assert(r[w2 + 1] == m);
            } else {
                assert(r[0] == m);
            }
        }
        if m == n {
            assert(insert_name(s.drop_first(), n).contains(m));
            let w2 = choose|w2: int|
                0 <= w2 < insert_name(s.drop_first(), n).len() && insert_name(s.drop_first(), n)[
                    w2] == m;
            assert(r[w2 + 1] == m);
        }
    } else {
        let r = seq![n] + s;
        if r.contains(m) {
            let w = choose|w: int| 0 <= w < r.len() && r[w] == m;
            if w > 0 {
                assert(s[w - 1] == m);
            }
        }
        if s.contains(m) {
            let w = choose|w: int| 0 <= w < s.len() && s[w] == m;
            assert(r[w + 1] == m);
        }
        if m == n {
            assert(r[0] == m);
        }
    }
}

/// Sorting a key list keeps exactly its names.
pub proof fn lemma_sort_names_contains(s: Seq<Seq<char>>, m: Seq<char>)
    ensures
        sort_names(s).contains(m) <==> s.contains(m),
    decreases s.len(),
{
    if s.len() == 0 {
        if s.contains(m) {
            let w = choose|w: int| 0 <= w < s.len() && s[w] == m;
            assert(false);
        }
    } else {
        lemma_sort_names_contains(s.drop_last(), m);
        lemma_insert_name_contains(sort_names(s.drop_last()), s.last(), m);
        assert(s.contains(m) <==> s.drop_last().contains(m) || m == s.last()) by {
            if s.contains(m) {
                let w = choose|w: int| 0 <= w < s.len() && s[w] == m;
                if w < s.len() - 1 {
                    assert(s.drop_last()[w] == m);
                }
            }
            if s.drop_last().contains(m) {
                let w = choose|w: int| 0 <= w < s.drop_last().len() && s.drop_last()[w] == m;
                assert(s[w] == m);
            }
            if m == s.last() {
                assert(s[s.len() - 1] == m);
            }
        }
    }
}


proof fn lemma_key_push_unique(keys: Seq<Seq<char>>, n: Seq<char>)
    requires
        forall|a: int, b: int| 0 <= a < b < keys.len() ==> keys[a] != keys[b],
    ensures
        forall|a: int, b: int|
            0 <= a < b < key_push(keys, n).len() ==> key_push(keys, n)[a] != key_push(keys, n)[b],
{
    if !keys.contains(n) {
        let r = keys.push(n);
        assert forall|a: int, b: int| 0 <= a < b < r.len() implies r[a] != r[b] by {
            if b == keys.len() {
                assert(r[a] == keys[a]);
                assert(keys.contains(keys[a]));
            } else {
                assert(r[a] == keys[a] && r[b] == keys[b]);
            }
        }
    }
}

proof fn lemma_rec_keys_from_unique(keys: Seq<Seq<char>>, pairs: Seq<(Seq<char>, JsonSpec)>, t: nat)
    requires
        forall|a: int, b: int| 0 <= a < b < keys.len() ==> keys[a] != keys[b],
    ensures
        forall|a: int, b: int|
            0 <= a < b < rec_keys_from(keys, pairs, t).len() ==> rec_keys_from(keys, pairs, t)[a]
                != rec_keys_from(keys, pairs, t)[b],
    decreases pairs.len() - t,
{
    if t < pairs.len() {
        lemma_key_push_unique(keys, pairs[t as int].0);
        lemma_rec_keys_from_unique(key_push(keys, pairs[t as int].0), pairs, t + 1);
        assert(rec_keys_from(keys, pairs, t) == rec_keys_from(
            key_push(keys, pairs[t as int].0),
            pairs,
            t + 1,
        ));
    } else {
        assert(rec_keys_from(keys, pairs, t) == keys);
    }
}

/// The key union never repeats a name.
pub proof fn lemma_keys_fold_unique(recs: Seq<JsonSpec>)
    ensures
        forall|a: int, b: int|
            0 <= a < b < keys_fold(recs).len() ==> keys_fold(recs)[a] != keys_fold(recs)[b],
    decreases recs.len(),
{
    if recs.len() > 0 {
        lemma_keys_fold_unique(recs.drop_last());
        match recs.last() {
            JsonSpec::Obj(pairs) => {
                lemma_rec_keys_from_unique(keys_fold(recs.drop_last()), pairs, 0);
            },
            _ => {},
        }
    }
}

proof fn lemma_insert_name_unique(s: Seq<Seq<char>>, n: Seq<char>)
    requires
        forall|a: int, b: int| 0 <= a < b < s.len() ==> s[a] != s[b],
        !s.contains(n),
    ensures
        forall|a: int, b: int|
            0 <= a < b < insert_name(s, n).len() ==> insert_name(s, n)[a] != insert_name(s, n)[b],
    decreases s.len(),
{
    if s.len() == 0 {
    } else if lex_le(s[0], n) {
        assert(forall|a: int, b: int|
            0 <= a < b < s.drop_first().len() ==> s.drop_first()[a] != s.drop_first()[b]) by {
            assert(forall|k: int| 0 <= k < s.drop_first().len() ==> s.drop_first()[k] == s[k + 1]);
        }
        assert(!s.drop_first().contains(n)) by {
            if s.drop_first().contains(n) {
                let w = choose|w: int| 0 <= w < s.drop_first().len() && s.drop_first()[w] == n;
                assert(s[w + 1] == n);
                assert(s.contains(n));
            }
        }
        lemma_insert_name_unique(s.drop_first(), n);
        let t = insert_name(s.drop_first(), n);
        let r = seq![s[0]] + t;
        assert forall|a: int, b: int| 0 <= a < b < r.len() implies r[a] != r[b] by {
            if a == 0 {
                assert(r[b] == t[b - 1]);
                lemma_insert_name_contains(s.drop_first(), n, t[b - 1]);
                assert(t.contains(t[b - 1]));
                if t[b - 1] == s[0] {
                    assert(s.drop_first().contains(s[0]) || s[0] == n);
                    if s.drop_first().contains(s[0]) {
                        let w = choose|w: int|
                            0 <= w < s.drop_first().len() && s.drop_first()[w] == s[0];
                        assert(s[w + 1] == s[0]);
                    } else {
                        assert(s.contains(s[0])) by {
                            assert(s[0] == s[0]);
                        }
                    }
                }
            } else {
                assert(r[a] == t[a - 1] && r[b] == t[b - 1]);
            }
        }
    } else {
        let r = seq![n] + s;
        assert forall|a: int, b: int| 0 <= a < b < r.len() implies r[a] != r[b] by {
            if a == 0 {
                assert(r[b] == s[b - 1]);
                if s[b - 1] == n {
                    assert(s.contains(n));
                }
            } else {
                assert(r[a] == s[a - 1] && r[b] == s[b - 1]);
            }
        }
    }
}

/// Sorting a duplicate-free key list keeps it duplicate-free.
pub proof fn lemma_sort_names_unique(s: Seq<Seq<char>>)
    requires
        forall|a: int, b: int| 0 <= a < b < s.len() ==> s[a] != s[b],
    ensures
        forall|a: int, b: int|
            0 <= a < b < sort_names(s).len() ==> sort_names(s)[a] != sort_names(s)[b],
    decreases s.len(),
{
    if s.len() > 0 {
        assert(forall|a: int, b: int|
            0 <= a < b < s.drop_last().len() ==> s.drop_last()[a] != s.drop_last()[b]) by {
            assert(forall|k: int| 0 <= k < s.drop_last().len() ==> s.drop_last()[k] == s[k]);
        }
        lemma_sort_names_unique(s.drop_last());
        assert(!s.drop_last().contains(s.last())) by {
            if s.drop_last().contains(s.last()) {
                let w = choose|w: int| 0 <= w < s.drop_last().len() && s.drop_last()[w] == s.last();
                assert(s[w] == s[s.len() - 1]);
            }
        }
        lemma_sort_names_contains(s.drop_last(), s.last());
        lemma_insert_name_unique(sort_names(s.drop_last()), s.last());
    }
}

proof fn lemma_insert_name_sorted(s: Seq<Seq<char>>, n: Seq<char>)
    requires
        forall|a: int, b: int| 0 <= a < b < s.len() ==> lex_le(#[trigger] s[a], #[trigger] s[b]),
    ensures
        forall|a: int, b: int|
            0 <= a < b < insert_name(s, n).len() ==> lex_le(
                #[trigger] insert_name(s, n)[a],
                #[trigger] insert_name(s, n)[b],
            ),
    decreases s.len(),
{
    if s.len() == 0 {
    } else if lex_le(s[0], n) {
        assert(forall|a: int, b: int|
            0 <= a < b < s.drop_first().len() ==> lex_le(
                #[trigger] s.drop_first()[a],
                #[trigger] s.drop_first()[b],
            )) by {
            assert(forall|k: int| 0 <= k < s.drop_first().len() ==> s.drop_first()[k] == s[k + 1]);
        }
        lemma_insert_name_sorted(s.drop_first(), n);
        let t = insert_name(s.drop_first(), n);
        let r = seq![s[0]] + t;
        assert forall|a: int, b: int| 0 <= a < b < r.len() implies lex_le(
            #[trigger] r[a],
            #[trigger] r[b],
        ) by {
            if a == 0 {
                assert(r[b] == t[b - 1]);
                lemma_insert_name_contains(s.drop_first(), n, t[b - 1]);
                assert(t.contains(t[b - 1]));
                if t[b - 1] == n {
                    assert(lex_le(s[0], n));
                } else {
                    assert(s.drop_first().contains(t[b - 1]));
                    let w = choose|w: int|
                        0 <= w < s.drop_first().len() && s.drop_first()[w] == t[b - 1];
                    assert(s[w + 1] == t[b - 1]);
                    assert(lex_le(s[0], s[w + 1]));
                }
            } else {
                assert(r[a] == t[a - 1] && r[b] == t[b - 1]);
                assert(lex_le(t[a - 1], t[b - 1]));
            }
        }
    } else {
        crate::text::lemma_lex_le_total(s[0], n);
        assert(lex_le(n, s[0]));
        let r = seq![n] + s;
        assert forall|a: int, b: int| 0 <= a < b < r.len() implies lex_le(
            #[trigger] r[a],
            #[trigger] r[b],
        ) by {
            if a == 0 {
                assert(r[b] == s[b - 1]);
                if b == 1 {
                } else {
                    assert(lex_le(s[0], s[b - 1]));
                    crate::text::lemma_lex_le_trans(n, s[0], s[b - 1]);
                }
            } else {
                assert(r[a] == s[a - 1] && r[b] == s[b - 1]);
            }
        }
    }
}

/// A sorted key list really is sorted: each name at or before each later
/// one, lexicographically.
pub proof fn lemma_sort_names_sorted(s: Seq<Seq<char>>)
    ensures
        forall|a: int, b: int|
            0 <= a < b < sort_names(s).len() ==> lex_le(
                #[trigger] sort_names(s)[a],
                #[trigger] sort_names(s)[b],
            ),
    decreases s.len(),
{
    if s.len() > 0 {
        lemma_sort_names_sorted(s.drop_last());
        lemma_insert_name_sorted(sort_names(s.drop_last()), s.last());
    }
}

/// An immutable dataset after ingestion.
pub struct DatasetStore {
    pub id: String,
    pub source_path: String,
    pub store_path: String,
    pub offsets: Vec<u64>,
    pub fields: Vec<String>,
    pub record_count: usize,
    pub size_bytes: u64,
    pub format: String,
}

impl DatasetStore {
    /// One offset per record, each the byte start of its line.
    pub open spec fn offsets_wf(self, lines: Seq<Seq<char>>) -> bool {
        &&& self.offsets@.len() == self.record_count
        &&& lines.len() == self.record_count
        &&& forall|i: int|
            0 <= i < self.record_count ==> self.offsets@[i] == line_start(lines, i)
    }
}

/// Well-formed offsets strictly increase.
pub proof fn lemma_offsets_increasing(store: DatasetStore, lines: Seq<Seq<char>>)
    requires
        store.offsets_wf(lines),
    ensures
        forall|i: int, j: int|
            0 <= i < j < store.record_count ==> store.offsets@[i] < store.offsets@[j],
{
    assert forall|i: int, j: int|
        0 <= i < j < store.record_count implies store.offsets@[i] < store.offsets@[j] by {
        lemma_line_start_mono(lines, i, j);
    }
}

/// A non-object record is wrapped as the single member `value`.
pub open spec fn normalize_spec(v: JsonSpec) -> JsonSpec {
    match v {
        JsonSpec::Obj(_) => v,
        _ => JsonSpec::Obj(seq![("value"@, v)]),
    }
}

/// Runtime form of [`normalize_spec`].
pub fn normalize_record(value: JsonValue) -> (r: JsonValue)
    ensures
        r@ == normalize_spec(value@),
        r@ is Obj,
{
    match value {
        JsonValue::Obj(pairs) => JsonValue::Obj(pairs),
        other => {
            let mut pairs: Vec<(String, JsonValue)> = Vec::new();
            let ghost ov = other@;
            pairs.push((String::from_str("value"), other));
            proof {
                crate::json::lemma_obj_view_index(pairs@);
                assert(JsonValue::Obj(pairs)@ =~= JsonSpec::Obj(seq![("value"@, ov)]));
            }
            JsonValue::Obj(pairs)
        },
    }
}

/// Lexicographic order for field names.
impl SortKey for String {
    open spec fn leq_spec(self, other: Self) -> bool {
        lex_le(self@, other@)
    }

    fn leq(&self, other: &Self) -> (r: bool) {
        str_le(self.as_str(), other.as_str())
    }

    proof fn leq_total(a: Self, b: Self) {
        lemma_lex_le_total(a@, b@);
    }

    proof fn leq_trans(a: Self, b: Self, c: Self) {
        lemma_lex_le_trans(a@, b@, c@);
    }
}

/// Membership test over a vector of names.
pub fn names_contain(v: &Vec<String>, name: &str) -> (r: bool)
    ensures
        r == v.deep_view().contains(name@),
{
    let n = v.len();
    let mut i: usize = 0;
    while i < n
        invariant
            i <= n,
            n == v@.len(),
            forall|k: int| 0 <= k < i ==> v.deep_view()[k] != name@,
        decreases n - i,
    {
        if crate::text::str_eq(v[i].as_str(), name) {
            proof {
                assert(v.deep_view()[i as int] == name@);
            }
            return true;
        }
        i = i + 1;
    }
    proof {
        if v.deep_view().contains(name@) {
            let k = choose|k: int| 0 <= k < v.deep_view().len() && v.deep_view()[k] == name@;
            assert(false);
        }
    }
    false
}

/// Builds a store record by record.
pub struct StoreBuilder {
    pub lines: Vec<String>,
    pub offsets: Vec<u64>,
    pub fields: Vec<String>,
    pub next_offset: u64,
    pub records: Ghost<Seq<JsonSpec>>,
}

impl StoreBuilder {
    /// The builder's invariant.
    pub open spec fn wf(self) -> bool {
        &&& self.offsets@.len() == self.lines@.len()
        &&& self.records@.len() == self.lines@.len()
        &&& forall|i: int|
            0 <= i < self.lines@.len() ==> self.offsets@[i] == line_start(
                self.lines.deep_view(),
                i,
            )
        &&& self.next_offset == line_start(self.lines.deep_view(), self.lines@.len() as int)
        &&& forall|i: int|
            0 <= i < self.records@.len() ==> (#[trigger] self.records@[i]) is Obj
                && self.lines.deep_view()[i] == json_text(self.records@[i])
        &&& self.fields.deep_view() == keys_fold(self.records@)
    }

    /// An empty builder.
    pub fn new() -> (r: StoreBuilder)
        ensures
            r.wf(),
            r.lines@.len() == 0,
            r.records@ == Seq::<JsonSpec>::empty(),
            r.fields@.len() == 0,
    {
        let r = StoreBuilder {
            lines: Vec::new(),
            offsets: Vec::new(),
            fields: Vec::new(),
            next_offset: 0,
            records: Ghost(Seq::empty()),
        };
        proof {
            assert(r.lines.deep_view() =~= Seq::<Seq<char>>::empty());
            assert(r.fields.deep_view() =~= Seq::<Seq<char>>::empty());
            assert(r.fields.deep_view() =~= keys_fold(r.records@));
        }
        r
    }

    /// The normalized record's keys, folded into the field list.
    fn add_fields(fields: &mut Vec<String>, rec: &JsonValue)
        ensures
            final(fields).deep_view() == rec_keys(old(fields).deep_view(), rec@),
    {
        match rec {
            JsonValue::Obj(pairs) => {
                proof {
                    crate::json::lemma_obj_view_index(pairs@);
                }
                let ghost m = (rec@) -> Obj_0;
                let n = pairs.len();
                let mut t: usize = 0;
                while t < n
                    invariant
                        t <= n,
                        n == pairs@.len(),
                        rec@ is Obj,
                        m == (rec@)->Obj_0,
                        m.len() == n,
                        forall|k: int| 0 <= k < n ==> (#[trigger] m[k]).0 == pairs@[k].0@,
                        rec_keys_from(old(fields).deep_view(), m, 0) == rec_keys_from(
                            fields.deep_view(),
                            m,
                            t as nat,
                        ),
                    decreases n - t,
                {
                    let missing = !names_contain(fields, pairs[t].0.as_str());
                    let ghost before = fields.deep_view();
                    if missing {
                        fields.push(pairs[t].0.clone());
                        proof {
                            assert(!before.contains(m[t as int].0));
                            assert(fields.deep_view() =~= before.push(pairs@[t as int].0@));
                            assert(fields.deep_view() == key_push(before, m[t as int].0));
                        }
                    } else {
                        proof {
                            assert(before.contains(m[t as int].0));
                            assert(fields.deep_view() == key_push(before, m[t as int].0));
                        }
                    }
                    t = t + 1;
                }
            },
            _ => {
                proof {
                    assert(!(rec@ is Obj));
                }
            },
        }
    }

    /// Append one record. It is normalized, serialized and measured; the
    /// push succeeds exactly while the next offset still fits.
    pub fn push_record(&mut self, value: JsonValue) -> (r: Result<(), DataError>)
        requires
            old(self).wf(),
        ensures
            final(self).wf(),
            match r {
                Ok(()) => {
                    &&& old(self).next_offset + utf8_len(json_text(normalize_spec(value@))) + 1
                        <= u64::MAX
                    &&& final(self).records@ == old(self).records@.push(normalize_spec(value@))
                    &&& final(self).lines.deep_view() == old(self).lines.deep_view().push(
                        json_text(normalize_spec(value@)),
                    )
                    &&& final(self).lines@.len() == old(self).lines@.len() + 1
                },
                Err(e) => {
                    &&& e is StoreFull
                    &&& old(self).next_offset + utf8_len(json_text(normalize_spec(value@))) + 1
                        > u64::MAX
                    &&& final(self).records@ == old(self).records@
                    &&& final(self).lines@ == old(self).lines@
                },
            },
    {
        let rec = normalize_record(value);
        let line = to_json_text(&rec);
        let blen = crate::text::utf8_len_u128(line.as_str());
        if blen > 0xFFFF_FFFF_FFFF_FFFF {
            return Err(DataError::StoreFull);
        }
        let total: u128 = (self.next_offset as u128) + blen + 1;
        if total > 0xFFFF_FFFF_FFFF_FFFF {
            return Err(DataError::StoreFull);
        }
        let ghost lines0 = self.lines.deep_view();
        let ghost recs0 = self.records@;
        let ghost fields0 = self.fields.deep_view();
        self.offsets.push(self.next_offset);
        self.lines.push(line);
        Self::add_fields(&mut self.fields, &rec);
        self.next_offset = total as u64;
        proof {
            self.records@ = recs0.push(rec@);
        }
        proof {
            let dl = self.lines.deep_view();
            assert(dl =~= lines0.push(json_text(rec@)));
            assert forall|i: int| 0 <= i < self.lines@.len() implies self.offsets@[i] == line_start(
                dl,
                i,
            ) by {
                lemma_line_start_prefix(lines0, dl, i);
            }
            assert(line_start(dl, self.lines@.len() as int) == line_start(
                dl,
                self.lines@.len() - 1,
            ) + utf8_len(dl[self.lines@.len() - 1]) + 1);
            assert(self.records@.len() == recs0.len() + 1);
            assert(self.records@.drop_last() =~= recs0);
            assert(self.records@.last() == rec@);
            assert(self.fields.deep_view() == rec_keys(keys_fold(recs0), rec@));
            assert(self.fields.deep_view() == keys_fold(self.records@));
        }
        Ok(())
    }

    /// Close the builder into a store and its lines; the field union comes
    /// out sorted.
    pub fn finish(
        self,
        id: String,
        source_path: String,
        store_path: String,
        size_bytes: u64,
        format: String,
    ) -> (r: (DatasetStore, Vec<String>))
        requires
            self.wf(),
        ensures
            r.0.offsets_wf(r.1.deep_view()),
            r.1@ == self.lines@,
            r.0.record_count == self.lines@.len(),
            r.0.id@ == id@,
            r.0.source_path@ == source_path@,
            r.0.store_path@ == store_path@,
            r.0.size_bytes == size_bytes,
            r.0.format@ == format@,
            r.0.fields@ == sort_elems(self.fields@),
            r.0.fields.deep_view() == sort_names(keys_fold(self.records@)),
            forall|i: int|
                0 <= i < self.records@.len() ==> (#[trigger] self.records@[i]) is Obj
                    && r.1.deep_view()[i] == json_text(self.records@[i]),
    {
        let ghost fields_before = self.fields@;
        let ghost recs = self.records@;
        let StoreBuilder { lines, offsets, mut fields, next_offset, records } = self;
        let sorted_fields = insertion_sort(&mut fields);
        proof {
            lemma_sort_names_views(fields_before);
            assert(names_of(fields_before) =~= keys_fold(recs));
            assert(sorted_fields.deep_view() =~= names_of(sorted_fields@));
        }
        let record_count = lines.len();
        let store = DatasetStore {
            id,
            source_path,
            store_path,
            offsets,
            fields: sorted_fields,
            record_count,
            size_bytes,
            format,
        };
        (store, lines)
    }
}

/// Line starts ignore lines at or past `i`.
pub proof fn lemma_line_start_prefix(a: Seq<Seq<char>>, b: Seq<Seq<char>>, i: int)
    requires
        i <= a.len(),
        a.len() <= b.len(),
        forall|k: int| 0 <= k < a.len() ==> a[k] == b[k],
    ensures
        line_start(a, i) == line_start(b, i),
    decreases i,
{
    if i > 0 {
        lemma_line_start_prefix(a, b, i - 1);
    }
}

} // verus!
