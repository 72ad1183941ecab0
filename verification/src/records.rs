//! Record primitives: value extraction, text length, truncation, tokens,
//! SimHash and Hamming distance.

use vstd::prelude::*;
use vstd::string::StrSliceExecFns;
use vstd::string::StringExecFns;
use crate::json::{json_get, json_text, JsonSpec, JsonValue, to_json_text};
use crate::models::{ov, FieldMap, PreviewField};
use crate::text::{char_width, is_blank, utf8_len, utf8_width};
use crate::trusted::{is_word_char, xxh3_of};
use crate::trusted::{lower_of, to_lower};

verus! {

/// Display text of a JSON value: a string is itself, null is empty, anything
/// else is its compact JSON text.
pub open spec fn value_text(v: JsonSpec) -> Seq<char> {
    match v {
        JsonSpec::Str(t) => t,
        JsonSpec::Null => Seq::empty(),
        _ => json_text(v),
    }
}

/// Runtime form of [`value_text`].
pub fn value_to_string(value: &JsonValue) -> (r: String)
    ensures
        r@ == value_text(value@),
{
    match value {
        JsonValue::Str(t) => t.clone(),
        JsonValue::Null => String::new(),
        _ => to_json_text(value),
    }
}

/// How many leading characters of `s` fit in `budget` bytes of UTF-8.
pub open spec fn cut_len(s: Seq<char>, budget: int) -> int
    decreases s.len(),
{
    if s.len() == 0 {
        0
    } else if utf8_width(s[0]) > budget {
        0
    } else {
        1 + cut_len(s.drop_first(), budget - utf8_width(s[0]))
    }
}

pub proof fn lemma_utf8_len_split(s: Seq<char>, i: int)
    requires
        0 <= i <= s.len(),
    ensures
        utf8_len(s) == utf8_len(s.subrange(0, i)) + utf8_len(s.skip(i)),
    decreases i,
{
    if i == 0 {
        assert(s.subrange(0, 0) =~= Seq::<char>::empty());
        assert(s.skip(0) =~= s);
    } else {
        lemma_utf8_len_split(s, i - 1);
        crate::text::lemma_utf8_len_push(s.subrange(0, i - 1), s[i - 1]);
        assert(s.subrange(0, i - 1).push(s[i - 1]) =~= s.subrange(0, i));
        assert(s.skip(i - 1).drop_first() =~= s.skip(i));
        assert(s.skip(i - 1).len() > 0 && s.skip(i - 1)[0] == s[i - 1]);
        assert(utf8_len(s.skip(i - 1)) == utf8_width(s[i - 1]) + utf8_len(s.skip(i)));
    }
}

/// Truncation of `s` to at most `limit` UTF-8 bytes: a shorter string stays
/// as it is; a longer one is cut at the last character boundary within the
/// limit and suffixed with dots.
pub open spec fn truncate_spec(s: Seq<char>, limit: int) -> Seq<char> {
    if utf8_len(s) <= limit {
        s
    } else {
        s.subrange(0, cut_len(s, limit)) + seq!['.', '.', '.']
    }
}

/// Runtime form of [`truncate_spec`].
pub fn truncate_text(text: &str, limit: usize) -> (r: String)
    ensures
        r@ == truncate_spec(text@, limit as int),
{
    let n = text.unicode_len();
    let mut i: usize = 0;
    let mut used: usize = 0;
    let mut fits: bool = true;
    proof {
        assert(text@.subrange(0, 0) =~= Seq::<char>::empty());
        assert(text@.skip(0) =~= text@);
    }
    loop
        invariant_except_break
            fits,
        invariant
            i <= n,
            n == text@.len(),
            used <= limit,
            used == utf8_len(text@.subrange(0, i as int)),
            cut_len(text@, limit as int) == i + cut_len(text@.skip(i as int), limit - used),
        ensures
            fits ==> utf8_len(text@) <= limit,
            !fits ==> utf8_len(text@) > limit && cut_len(text@, limit as int) == i && i
                <= text@.len(),
        decreases n - i,
    {
        if i >= n {
            proof {
                assert(text@.subrange(0, n as int) =~= text@);
            }
            break;
        }
        let c = text.get_char(i);
        let w = char_width(c);
        if w > limit - used {
            proof {
                let rest = text@.skip(i as int);
                assert(rest[0] == text@[i as int]);
                assert(cut_len(rest, limit - used) == 0);
                assert(cut_len(text@, limit as int) == i as int);
                lemma_utf8_len_split(text@, i as int);
                assert(utf8_len(rest) >= utf8_width(rest[0]));
                assert(utf8_len(text@) > limit);
            }
            fits = false;
            break;
        }
        proof {
            let rest = text@.skip(i as int);
            assert(rest[0] == text@[i as int]);
            assert(rest.drop_first() =~= text@.skip(i as int + 1));
            crate::text::lemma_utf8_len_push(text@.subrange(0, i as int), c);
            assert(text@.subrange(0, i as int).push(c) =~= text@.subrange(0, i as int + 1));
        }
        used = used + w;
        i = i + 1;
    }
    if fits {
        proof {
            assert(text@.subrange(0, n as int) =~= text@);
        }
        return text.to_owned();
    }
    let mut r = text.substring_char(0, i).to_owned();
    r.append("...");
    proof {
        reveal_strlit("...");
        assert(("...")@ =~= seq!['.', '.', '.']);
        assert(r@ =~= truncate_spec(text@, limit as int));
    }
    r
}

/// The record's value under the mapped name, tried exactly first and in
/// lowercase second.
pub open spec fn extract_field(rec: JsonSpec, field: Option<Seq<char>>) -> Option<JsonSpec> {
    match field {
        None => None,
        Some(name) => match json_get(rec, name) {
            Some(v) => Some(v),
            None => json_get(rec, lower_of(name)),
        },
    }
}

/// Runtime form of [`extract_field`].
pub fn extract_field_value(record: &JsonValue, field: &Option<String>) -> (r: Option<JsonValue>)
    ensures
        match r {
            Some(v) => extract_field(record@, ov(*field)) == Some(v@),
            None => extract_field(record@, ov(*field)) is None,
        },
{
    match field {
        None => None,
        Some(name) => match record.get(name.as_str()) {
            Some(v) => Some(v.deep_clone()),
            None => {
                let low = to_lower(name.as_str());
                match record.get(low.as_str()) {
                    Some(v) => Some(v.deep_clone()),
                    None => None,
                }
            },
        },
    }
}

/// Display text of the record's value under the mapped name.
pub open spec fn extract_text(rec: JsonSpec, field: Option<Seq<char>>) -> Option<Seq<char>> {
    match extract_field(rec, field) {
        Some(v) => Some(value_text(v)),
        None => None,
    }
}

/// Runtime form of [`extract_text`].
pub fn extract_text_value(record: &JsonValue, field: &Option<String>) -> (r: Option<String>)
    ensures
        match r {
            Some(t) => extract_text(record@, ov(*field)) == Some(t@),
            None => extract_text(record@, ov(*field)) is None,
        },
{
    match extract_field_value(record, field) {
        Some(v) => Some(value_to_string(&v)),
        None => None,
    }
}

/// An absent text reads as empty.
pub open spec fn or_empty(o: Option<Seq<char>>) -> Seq<char> {
    match o {
        Some(t) => t,
        None => Seq::empty(),
    }
}

/// Number of Unicode scalar values in `value`.
pub fn text_length(value: &str) -> (r: usize)
    ensures
        r == value@.len(),
{
    value.unicode_len()
}

/// The text whose length and keywords the filter examines, per scope.
pub open spec fn length_text_spec(rec: JsonSpec, fm: FieldMap, scope: Seq<char>) -> Seq<char> {
    if scope == "output"@ {
        or_empty(extract_text(rec, ov(fm.output)))
    } else if scope == "combined"@ {
        or_empty(extract_text(rec, ov(fm.instruction))) + seq!['\n'] + or_empty(
            extract_text(rec, ov(fm.output)),
        )
    } else {
        or_empty(extract_text(rec, ov(fm.instruction)))
    }
}

pub fn text_or_empty(record: &JsonValue, field: &Option<String>) -> (r: String)
    ensures
        r@ == or_empty(extract_text(record@, ov(*field))),
{
    match extract_text_value(record, field) {
        Some(t) => t,
        None => String::new(),
    }
}

/// Runtime form of [`length_text_spec`].
pub fn get_length_text(record: &JsonValue, field_map: &FieldMap, scope: &str) -> (r: String)
    ensures
        r@ == length_text_spec(record@, *field_map, scope@),
{
    if crate::text::str_eq(scope, "output") {
        text_or_empty(record, &field_map.output)
    } else if crate::text::str_eq(scope, "combined") {
        let mut r = text_or_empty(record, &field_map.instruction);
        r.append("\n");
        let out = text_or_empty(record, &field_map.output);
        r.append(out.as_str());
        proof {
            reveal_strlit("\n");
            assert(("\n")@ =~= seq!['\n']);
            assert(r@ =~= length_text_spec(record@, *field_map, scope@));
        }
        r
    } else {
        text_or_empty(record, &field_map.instruction)
    }
}


/// Length of the leading run of word characters.
pub open spec fn word_run(s: Seq<char>) -> int
    decreases s.len(),
{
    if s.len() == 0 || !is_word_char(s[0]) {
        0
    } else {
        1 + word_run(s.drop_first())
    }
}

pub proof fn lemma_word_run_bounds(s: Seq<char>)
    ensures
        0 <= word_run(s) <= s.len(),
    decreases s.len(),
{
    if s.len() > 0 && is_word_char(s[0]) {
        lemma_word_run_bounds(s.drop_first());
    }
}

/// Tokens of `s`: maximal runs of word characters, kept when wider than two
/// UTF-8 bytes, lowercased.
pub open spec fn tokens_of(s: Seq<char>) -> Seq<Seq<char>>
    decreases s.len(),
{
    if s.len() == 0 {
        Seq::empty()
    } else if !is_word_char(s[0]) {
        tokens_of(s.drop_first())
    } else {
        let k = word_run(s);
        proof {
            lemma_word_run_bounds(s);
            lemma_word_run_bounds(s.drop_first());
            assert(k >= 1);
        }
        let tok = s.subrange(0, k);
        (if utf8_len(tok) > 2 {
            seq![lower_of(tok)]
        } else {
            Seq::empty()
        }) + tokens_of(s.skip(k))
    }
}

/// Whether the leading `span` characters from `from` take more than two
/// UTF-8 bytes.
fn run_wider_than_two(cs: &Vec<char>, from: usize, to: usize) -> (r: bool)
    requires
        from <= to <= cs@.len(),
    ensures
        r == (utf8_len(cs@.subrange(from as int, to as int)) > 2),
{
    let ghost tok = cs@.subrange(from as int, to as int);
    let mut b: usize = 0;
    let mut m: usize = from;
    while m < to && b <= 2
        invariant
            from <= m <= to <= cs@.len(),
            tok == cs@.subrange(from as int, to as int),
            b == utf8_len(cs@.subrange(from as int, m as int)),
            b <= 6,
        decreases to - m,
    {
        proof {
            crate::text::lemma_utf8_len_push(cs@.subrange(from as int, m as int), cs@[m as int]);
            assert(cs@.subrange(from as int, m as int).push(cs@[m as int]) =~= cs@.subrange(
                from as int,
                m as int + 1,
            ));
        }
        b = b + char_width(cs[m]);
        m = m + 1;
    }
    proof {
        lemma_utf8_len_split(tok, m - from);
        assert(tok.subrange(0, m - from) =~= cs@.subrange(from as int, m as int));
        if m == to {
            assert(tok.subrange(0, m - from) =~= tok);
            assert(tok.skip(m - from) =~= Seq::<char>::empty());
        }
    }
    b > 2
}

/// Runtime form of [`tokens_of`].
pub fn tokenize(text: &str) -> (r: Vec<String>)
    ensures
        r.deep_view() == tokens_of(text@),
{
    let cs = crate::text::str_chars(text);
    let n = cs.len();
    let mut out: Vec<String> = Vec::new();
    let mut i: usize = 0;
    proof {
        assert(text@.skip(0) =~= text@);
        assert(out.deep_view() =~= Seq::<Seq<char>>::empty());
    }
    while i < n
        invariant
            i <= n,
            n == text@.len(),
            cs@ == text@,
            tokens_of(text@) == out.deep_view() + tokens_of(text@.skip(i as int)),
        decreases n - i,
    {
        if !cs[i].is_alphanumeric() {
            proof {
                let rest = text@.skip(i as int);
                assert(rest[0] == text@[i as int]);
                assert(rest.drop_first() =~= text@.skip(i as int + 1));
            }
            i = i + 1;
        } else {
            let ghost rest = text@.skip(i as int);
            let mut j: usize = i + 1;
            proof {
                assert(rest[0] == text@[i as int]);
                assert(rest.drop_first() =~= text@.skip(i as int + 1));
                assert(word_run(rest) == 1 + word_run(text@.skip(i as int + 1)));
            }
            while j < n && cs[j].is_alphanumeric()
                invariant
                    i < j <= n,
                    n == text@.len(),
                    cs@ == text@,
                    rest == text@.skip(i as int),
                    word_run(rest) == j - i + word_run(text@.skip(j as int)),
                decreases n - j,
            {
                proof {
                    let rj = text@.skip(j as int);
                    assert(rj[0] == text@[j as int]);
                    assert(rj.drop_first() =~= text@.skip(j as int + 1));
                }
                j = j + 1;
            }
            proof {
                let rj = text@.skip(j as int);
                if j < n {
                    assert(rj[0] == text@[j as int]);
                    assert(word_run(rj) == 0);
                } else {
                    assert(rj =~= Seq::<char>::empty());
                    assert(word_run(rj) == 0);
                }
                assert(word_run(rest) == j - i);
                assert(rest.subrange(0, j - i) =~= text@.subrange(i as int, j as int));
                assert(rest.skip(j - i) =~= text@.skip(j as int));
            }
            let wide = run_wider_than_two(&cs, i, j);
            if wide {
                let low = to_lower(text.substring_char(i, j));
                proof {
                    let od = out.deep_view();
                    assert(out@.push(low).len() == out@.len() + 1);
                }
                let ghost before = out.deep_view();
                out.push(low);
                proof {
                    assert(out.deep_view() =~= before.push(lower_of(text@.subrange(i as int, j as int))));
                    assert(before + (seq![lower_of(text@.subrange(i as int, j as int))] + tokens_of(text@.skip(j as int)))
                        =~= out.deep_view() + tokens_of(text@.skip(j as int)));
                }
            }
            i = j;
        }
    }
    proof {
        assert(text@.skip(n as int) =~= Seq::<char>::empty());
        assert(out.deep_view() + Seq::<Seq<char>>::empty() =~= out.deep_view());
    }
    out
}

/// Vote of the tokens on one bit: +1 when a token's digest has it set, −1
/// when not.
pub open spec fn votes(tokens: Seq<Seq<char>>, bit: nat) -> int
    decreases tokens.len(),
{
    if tokens.len() == 0 {
        0
    } else {
        (if (xxh3_of(tokens[0]) >> bit) & 1 == 1 {
            1int
        } else {
            -1int
        }) + votes(tokens.drop_first(), bit)
    }
}

pub proof fn lemma_votes_push(tokens: Seq<Seq<char>>, t: Seq<char>, bit: nat)
    ensures
        votes(tokens.push(t), bit) == votes(tokens, bit) + (if (xxh3_of(t) >> bit) & 1 == 1 {
            1int
        } else {
            -1int
        }),
    decreases tokens.len(),
{
    if tokens.len() == 0 {
        assert(tokens.push(t)[0] == t);
        assert(tokens.push(t).drop_first() =~= Seq::<Seq<char>>::empty());
        assert(votes(Seq::<Seq<char>>::empty(), bit) == 0);
        assert(votes(tokens, bit) == 0);
    } else {
        assert(tokens.push(t)[0] == tokens[0]);
        assert(tokens.push(t).drop_first() =~= tokens.drop_first().push(t));
        lemma_votes_push(tokens.drop_first(), t, bit);
        assert(votes(tokens.push(t), bit) == (if (xxh3_of(tokens[0]) >> bit) & 1 == 1 {
            1int
        } else {
            -1int
        }) + votes(tokens.drop_first().push(t), bit));
    }
}

pub proof fn lemma_votes_bounds(tokens: Seq<Seq<char>>, bit: nat)
    ensures
        -(tokens.len() as int) <= votes(tokens, bit) <= tokens.len(),
    decreases tokens.len(),
{
    if tokens.len() > 0 {
        lemma_votes_bounds(tokens.drop_first(), bit);
    }
}

/// The fingerprint's low `n` bits: bit `b` is set exactly when the vote on
/// `b` is positive.
pub open spec fn sim_bits(tokens: Seq<Seq<char>>, n: nat) -> u64
    decreases n,
{
    if n == 0 {
        0u64
    } else {
        sim_bits(tokens, (n - 1) as nat) | (if votes(tokens, (n - 1) as nat) > 0 {
            1u64 << ((n - 1) as u64)
        } else {
            0u64
        })
    }
}

/// SimHash fingerprint of a text: a signed vote of its tokens' digests on
/// each of 64 bits.
pub open spec fn simhash_spec(s: Seq<char>) -> u64 {
    sim_bits(tokens_of(s), 64)
}

/// Runtime form of [`simhash_spec`].
pub fn simhash(text: &str) -> (r: u64)
    ensures
        r == simhash_spec(text@),
{
    let tokens = tokenize(text);
    let ghost toks = tokens_of(text@);
    let tn = tokens.len();
    let mut weights: Vec<i128> = Vec::new();
    let mut z: usize = 0;
    while z < 64
        invariant
            z <= 64,
            weights@.len() == z,
            forall|k: int| 0 <= k < z ==> weights@[k] == 0int,
        decreases 64 - z,
    {
        weights.push(0);
        z = z + 1;
    }
    proof {
        assert(toks.subrange(0, 0) =~= Seq::<Seq<char>>::empty());
        assert(forall|k: nat| votes(Seq::<Seq<char>>::empty(), k) == 0);
    }
    let mut ti: usize = 0;
    while ti < tn
        invariant
            ti <= tn,
            tn == toks.len(),
            tokens.deep_view() == toks,
            tokens@.len() == tn,
            weights@.len() == 64,
            forall|k: int| 0 <= k < 64 ==> weights@[k] == votes(toks.subrange(0, ti as int), k as nat),
        decreases tn - ti,
    {
        let h = crate::trusted::xxh3_str(tokens[ti].as_str());
        proof {
            assert(tokens@[ti as int].deep_view() == toks[ti as int]);
            assert(tokens@[ti as int]@ == toks[ti as int]);
        }
        let mut b: usize = 0;
        while b < 64
            invariant
                b <= 64,
                ti < tn,
                tn == toks.len(),
                weights@.len() == 64,
                h == xxh3_of(toks[ti as int]),
                forall|k: int|
                    0 <= k < b ==> weights@[k] == votes(toks.subrange(0, ti as int + 1), k as nat),
                forall|k: int|
                    b <= k < 64 ==> weights@[k] == votes(toks.subrange(0, ti as int), k as nat),
            decreases 64 - b,
        {
            proof {
                lemma_votes_push(toks.subrange(0, ti as int), toks[ti as int], b as nat);
                assert(toks.subrange(0, ti as int).push(toks[ti as int]) =~= toks.subrange(
                    0,
                    ti as int + 1,
                ));
                lemma_votes_bounds(toks.subrange(0, ti as int), b as nat);
            }
            let w = weights[b];
            if (h >> (b as u64)) & 1 == 1 {
                weights.set(b, w + 1);
            } else {
                weights.set(b, w - 1);
            }
            b = b + 1;
        }
        ti = ti + 1;
    }
    proof {
        assert(toks.subrange(0, tn as int) =~= toks);
    }
    let mut outv: u64 = 0;
    let mut b: usize = 0;
    while b < 64
        invariant
            b <= 64,
            weights@.len() == 64,
            forall|k: int| 0 <= k < 64 ==> weights@[k] == votes(toks, k as nat),
            outv == sim_bits(toks, b as nat),
        decreases 64 - b,
    {
        if weights[b] > 0 {
            outv = outv | (1u64 << (b as u64));
        } else {
            proof {
                assert(outv | 0u64 == outv) by (bit_vector);
            }
        }
        b = b + 1;
    }
    outv
}

/// Number of set bits among the low `n` bits of `x`.
pub open spec fn popcount_rec(x: u64, n: nat) -> nat
    decreases n,
{
    if n == 0 {
        0
    } else {
        popcount_rec(x, (n - 1) as nat) + (if (x >> ((n - 1) as u64)) & 1 == 1 {
            1nat
        } else {
            0nat
        })
    }
}

/// Number of set bits in a 64-bit word.
pub open spec fn bit_count(x: u64) -> nat {
    popcount_rec(x, 64)
}

/// Count of differing bits between two 64-bit fingerprints.
pub fn hamming_distance(a: u64, b: u64) -> (r: u32)
    ensures
        r == bit_count(a ^ b),
{
    let x = a ^ b;
    let mut count: u32 = 0;
    let mut i: u64 = 0;
    while i < 64
        invariant
            i <= 64,
            count <= i,
            count == popcount_rec(x, i as nat),
        decreases 64 - i,
    {
        if (x >> i) & 1 == 1 {
            count = count + 1;
        }
        i = i + 1;
    }
    count
}

/// Equal texts have fingerprints at Hamming distance zero: the fingerprint
/// is a function of the text, and any fingerprint differs from itself in no
/// bit.
pub proof fn lemma_simhash_self(s: Seq<char>)
    ensures
        bit_count(simhash_spec(s) ^ simhash_spec(s)) == 0,
{
    let h = simhash_spec(s);
    assert(h ^ h == 0u64) by (bit_vector);
    lemma_popcount_zero(64);
}

pub proof fn lemma_popcount_zero(n: nat)
    ensures
        popcount_rec(0u64, n) == 0,
    decreases n,
{
    if n > 0 {
        lemma_popcount_zero((n - 1) as nat);
        let m = (n - 1) as u64;
        assert((0u64 >> m) & 1 == 0) by (bit_vector);
    }
}


/// Preview entry for one mapped role: skipped when the role is unmapped, the
/// field is absent, or its text is blank; otherwise the text truncated to 480
/// bytes.
pub open spec fn role_fields(rec: JsonSpec, name_opt: Option<Seq<char>>, kind: Seq<char>) -> Seq<
    (Seq<char>, Seq<char>, Seq<char>),
> {
    match name_opt {
        None => Seq::empty(),
        Some(name) => match extract_text(rec, Some(name)) {
            None => Seq::empty(),
            Some(v) => if is_blank(v) {
                Seq::empty()
            } else {
                seq![(name, truncate_spec(v, 480), kind)]
            },
        },
    }
}

/// The role's field name, when the record has it.
pub open spec fn used_entry(rec: JsonSpec, name_opt: Option<Seq<char>>) -> Seq<Seq<char>> {
    match name_opt {
        None => Seq::empty(),
        Some(name) => if extract_text(rec, Some(name)) is Some {
            seq![name]
        } else {
            Seq::empty()
        },
    }
}

/// Preview entries of the five mapped roles, in role order.
pub open spec fn main_fields(rec: JsonSpec, fm: FieldMap) -> Seq<(Seq<char>, Seq<char>, Seq<char>)> {
    role_fields(rec, ov(fm.instruction), "text"@) + role_fields(rec, ov(fm.output), "text"@)
        + role_fields(rec, ov(fm.code), "code"@) + role_fields(rec, ov(fm.category), "meta"@)
        + role_fields(rec, ov(fm.score), "meta"@)
}

/// Names of the roles the record has.
pub open spec fn used_names(rec: JsonSpec, fm: FieldMap) -> Seq<Seq<char>> {
    used_entry(rec, ov(fm.instruction)) + used_entry(rec, ov(fm.output)) + used_entry(
        rec,
        ov(fm.code),
    ) + used_entry(rec, ov(fm.category)) + used_entry(rec, ov(fm.score))
}

/// Fallback entries: stored members whose keys served no role, scanned in
/// stored order until `budget` entries are found or the record runs out.
pub open spec fn fb_scan(
    pairs: Seq<(Seq<char>, JsonSpec)>,
    used: Seq<Seq<char>>,
    budget: nat,
) -> Seq<(Seq<char>, Seq<char>, Seq<char>)>
    decreases pairs.len(),
{
    if pairs.len() == 0 || budget == 0 {
        Seq::empty()
    } else if used.contains(pairs[0].0) {
        fb_scan(pairs.drop_first(), used, budget)
    } else {
        seq![(pairs[0].0, truncate_spec(value_text(pairs[0].1), 480), "text"@)] + fb_scan(
            pairs.drop_first(),
            used,
            (budget - 1) as nat,
        )
    }
}

/// Fallback: the first two stored members whose keys served no role.
pub open spec fn fallback_fields(rec: JsonSpec, used: Seq<Seq<char>>) -> Seq<
    (Seq<char>, Seq<char>, Seq<char>),
> {
    match rec {
        JsonSpec::Obj(pairs) => fb_scan(pairs, used, 2),
        _ => Seq::empty(),
    }
}

/// The fields a preview shows for one record: the mapped roles, or when none
/// yields anything, the first two unmapped members.
pub open spec fn preview_fields_spec(rec: JsonSpec, fm: FieldMap) -> Seq<
    (Seq<char>, Seq<char>, Seq<char>),
> {
    let main = main_fields(rec, fm);
    if main.len() > 0 {
        main
    } else {
        fallback_fields(rec, used_names(rec, fm))
    }
}

fn push_role(
    out: &mut Vec<PreviewField>,
    used: &mut Vec<String>,
    record: &JsonValue,
    name_opt: &Option<String>,
    kind: &str,
)
    ensures
        final(out).deep_view() == old(out).deep_view() + role_fields(
            record@,
            ov(*name_opt),
            kind@,
        ),
        final(used).deep_view() == old(used).deep_view() + used_entry(record@, ov(*name_opt)),
{
    match name_opt {
        None => {
            proof {
                assert(out.deep_view() =~= out.deep_view() + Seq::<
                    (Seq<char>, Seq<char>, Seq<char>),
                >::empty());
                assert(used.deep_view() =~= used.deep_view() + Seq::<Seq<char>>::empty());
            }
        },
        Some(name) => {
            match extract_text_value(record, name_opt) {
                None => {
                    proof {
                        assert(out.deep_view() =~= out.deep_view() + Seq::<
                            (Seq<char>, Seq<char>, Seq<char>),
                        >::empty());
                        assert(used.deep_view() =~= used.deep_view() + Seq::<Seq<char>>::empty());
                    }
                },
                Some(v) => {
                    let ghost used0 = used.deep_view();
                    used.push(name.clone());
                    proof {
                        assert(used.deep_view() =~= used0 + seq![name@]);
                    }
                    if !crate::text::blank_str(v.as_str()) {
                        let ghost out0 = out.deep_view();
                        let pf = PreviewField {
                            name: name.clone(),
                            value: truncate_text(v.as_str(), 480),
                            kind: String::from_str(kind),
                        };
                        out.push(pf);
                        proof {
                            assert(out.deep_view() =~= out0 + seq![
                                (name@, truncate_spec(v@, 480), kind@),
                            ]);
                        }
                    } else {
                        proof {
                            assert(out.deep_view() =~= out.deep_view() + Seq::<
                                (Seq<char>, Seq<char>, Seq<char>),
                            >::empty());
                        }
                    }
                },
            }
        },
    }
}

fn used_contains(used: &Vec<String>, name: &str) -> (r: bool)
    ensures
        r == used.deep_view().contains(name@),
{
    let n = used.len();
    let mut i: usize = 0;
    while i < n
        invariant
            i <= n,
            n == used@.len(),
            forall|k: int| 0 <= k < i ==> used.deep_view()[k] != name@,
        decreases n - i,
    {
        if crate::text::str_eq(used[i].as_str(), name) {
            proof {
                assert(used.deep_view()[i as int] == name@);
            }
            return true;
        }
        i = i + 1;
    }
    proof {
        if used.deep_view().contains(name@) {
            let k = choose|k: int|
                0 <= k < used.deep_view().len() && used.deep_view()[k] == name@;
            assert(false);
        }
    }
    false
}

/// Runtime form of [`preview_fields_spec`].
pub fn build_preview_fields(record: &JsonValue, field_map: &FieldMap) -> (r: Vec<PreviewField>)
    ensures
        r.deep_view() == preview_fields_spec(record@, *field_map),
{
    let mut out: Vec<PreviewField> = Vec::new();
    let mut used: Vec<String> = Vec::new();
    proof {
        assert(out.deep_view() =~= Seq::<(Seq<char>, Seq<char>, Seq<char>)>::empty());
        assert(used.deep_view() =~= Seq::<Seq<char>>::empty());
    }
    push_role(&mut out, &mut used, record, &field_map.instruction, "text");
    push_role(&mut out, &mut used, record, &field_map.output, "text");
    push_role(&mut out, &mut used, record, &field_map.code, "code");
    push_role(&mut out, &mut used, record, &field_map.category, "meta");
    push_role(&mut out, &mut used, record, &field_map.score, "meta");
    proof {
        assert(out.deep_view() =~= main_fields(record@, *field_map));
        assert(used.deep_view() =~= used_names(record@, *field_map));
    }
    if out.len() > 0 {
        return out;
    }
    match record {
        JsonValue::Obj(pairs) => {
            proof {
                crate::json::lemma_obj_view_index(pairs@);
            }
            let ghost m = (record@) -> Obj_0;
            let ghost used_dv = used.deep_view();
            let mut fb: Vec<PreviewField> = Vec::new();
            let np = pairs.len();
            let mut i: usize = 0;
            proof {
                assert(fb.deep_view() =~= Seq::<(Seq<char>, Seq<char>, Seq<char>)>::empty());
                assert(m.skip(0) =~= m);
            }
            while i < np && fb.len() < 2
                invariant
                    i <= np,
                    np == pairs@.len(),
                    record@ is Obj,
                    m == (record@)->Obj_0,
                    m.len() == np,
                    forall|k: int| 0 <= k < np ==> #[trigger] m[k] == (pairs@[k].0@, pairs@[k].1@),
                    used_dv == used.deep_view(),
                    fb@.len() <= 2,
                    fb_scan(m, used_dv, 2) == fb.deep_view() + fb_scan(
                        m.skip(i as int),
                        used_dv,
                        (2 - fb@.len()) as nat,
                    ),
                decreases np - i,
            {
                proof {
                    assert(m.skip(i as int)[0] == m[i as int]);
                    assert(m.skip(i as int).drop_first() =~= m.skip(i as int + 1));
                }
                if !used_contains(&used, pairs[i].0.as_str()) {
                    let val = value_to_string(&pairs[i].1);
                    let ghost before = fb.deep_view();
                    fb.push(
                        PreviewField {
                            name: pairs[i].0.clone(),
                            value: truncate_text(val.as_str(), 480),
                            kind: String::from_str("text"),
                        },
                    );
                    proof {
                        assert(fb.deep_view() =~= before.push(
                            (m[i as int].0, truncate_spec(value_text(m[i as int].1), 480), "text"@),
                        ));
                        assert(before + (seq![
                            (m[i as int].0, truncate_spec(value_text(m[i as int].1), 480), "text"@),
                        ] + fb_scan(m.skip(i as int + 1), used_dv, (2 - fb@.len()) as nat))
                            =~= fb.deep_view() + fb_scan(
                            m.skip(i as int + 1),
                            used_dv,
                            (2 - fb@.len()) as nat,
                        ));
                    }
                }
                i = i + 1;
            }
            proof {
                if i >= np {
                    assert(m.skip(np as int) =~= Seq::<(Seq<char>, JsonSpec)>::empty());
                }
                assert(fb_scan(m.skip(i as int), used_dv, (2 - fb@.len()) as nat)
                    =~= Seq::<(Seq<char>, Seq<char>, Seq<char>)>::empty());
                assert(fb.deep_view() + Seq::<(Seq<char>, Seq<char>, Seq<char>)>::empty()
                    =~= fb.deep_view());
                assert(fb.deep_view() == fallback_fields(record@, used_names(record@, *field_map)));
            }
            fb
        },
        _ => {
            let fb: Vec<PreviewField> = Vec::new();
            proof {
                assert(fb.deep_view() =~= preview_fields_spec(record@, *field_map));
            }
            fb
        },
    }
}


proof fn lemma_votes_remove(tokens: Seq<Seq<char>>, j: int, bit: nat)
    requires
        0 <= j < tokens.len(),
    ensures
        votes(tokens, bit) == (if (xxh3_of(tokens[j]) >> bit) & 1 == 1 {
            1int
        } else {
            -1int
        }) + votes(tokens.remove(j), bit),
    decreases j,
{
    if j == 0 {
        assert(tokens.remove(0) =~= tokens.drop_first());
    } else {
        assert(tokens.remove(j)[0] == tokens[0]);
        assert(tokens.remove(j).drop_first() =~= tokens.drop_first().remove(j - 1));
        assert(tokens.drop_first()[j - 1] == tokens[j]);
        lemma_votes_remove(tokens.drop_first(), j - 1, bit);
    }
}

proof fn lemma_votes_permutation(t1: Seq<Seq<char>>, t2: Seq<Seq<char>>, bit: nat)
    requires
        t1.to_multiset() == t2.to_multiset(),
    ensures
        votes(t1, bit) == votes(t2, bit),
    decreases t1.len(),
{
    broadcast use vstd::seq_lib::group_to_multiset_ensures;

    if t1.len() == 0 {
        assert(t1.to_multiset().len() == 0);
        assert(t2.to_multiset().len() == t2.len());
        assert(t2.len() == 0);
    } else {
        let h = t1[0];
        assert(t1.contains(h));
        assert(t2.to_multiset().count(h) > 0);
        assert(t2.contains(h));
        let j = choose|j: int| 0 <= j < t2.len() && t2[j] == h;
        lemma_votes_remove(t2, j, bit);
        assert(t1.drop_first() =~= t1.remove(0));
        assert(t1.remove(0).to_multiset() =~= t1.to_multiset().remove(h));
        assert(t2.remove(j).to_multiset() =~= t2.to_multiset().remove(h));
        lemma_votes_permutation(t1.drop_first(), t2.remove(j), bit);
    }
}

proof fn lemma_sim_bits_permutation(t1: Seq<Seq<char>>, t2: Seq<Seq<char>>, n: nat)
    requires
        t1.to_multiset() == t2.to_multiset(),
    ensures
        sim_bits(t1, n) == sim_bits(t2, n),
    decreases n,
{
    if n > 0 {
        lemma_sim_bits_permutation(t1, t2, (n - 1) as nat);
        lemma_votes_permutation(t1, t2, (n - 1) as nat);
    }
}

/// The fingerprint depends only on the multiset of tokens: texts whose
/// token streams are rearrangements of one another share one fingerprint.
pub proof fn lemma_simhash_token_multiset(a: Seq<char>, b: Seq<char>)
    requires
        tokens_of(a).to_multiset() == tokens_of(b).to_multiset(),
    ensures
        simhash_spec(a) == simhash_spec(b),
{
    lemma_sim_bits_permutation(tokens_of(a), tokens_of(b), 64);
}

} // verus!
