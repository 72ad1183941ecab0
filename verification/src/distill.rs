//! The distillation engine: per-record meta collection, three selection
//! strategies, optional category stratification, deterministic seeding.

use vstd::prelude::*;
use crate::json::{JsonSpec, JsonValue, spec_parse_json};
use crate::models::{ov, DataError, DistillConfig, DistillSummary, FieldMap};
use crate::records::{extract_text, or_empty, simhash, simhash_spec};
use crate::rng::{shuffle_spec, Rng, shuffle_vec};
use crate::score::{parse_score, score_of};
use crate::sorting::{insert_sorted, insertion_sort, sort_elems, SortKey};
use crate::trusted::chars_to_string;

verus! {

/// What distillation keeps of one record.
pub struct RecordMeta {
    pub id: usize,
    pub category: Option<String>,
    pub score: i64,
    pub signature: u64,
}

impl View for RecordMeta {
    type V = RecordMeta;

    open spec fn view(&self) -> RecordMeta {
        *self
    }
}

impl DeepView for RecordMeta {
    type V = RecordMeta;

    open spec fn deep_view(&self) -> RecordMeta {
        *self
    }
}

/// Ordering for the importance strategy: higher scores first, ties in
/// arrival order.
impl SortKey for RecordMeta {
    open spec fn leq_spec(self, other: Self) -> bool {
        self.score >= other.score
    }

    fn leq(&self, other: &Self) -> (r: bool) {
        self.score >= other.score
    }

    proof fn leq_total(a: Self, b: Self) {
    }

    proof fn leq_trans(a: Self, b: Self, c: Self) {
    }
}

/// Ascending order for id lists.
impl SortKey for usize {
    open spec fn leq_spec(self, other: Self) -> bool {
        self <= other
    }

    fn leq(&self, other: &Self) -> (r: bool) {
        *self <= *other
    }

    proof fn leq_total(a: Self, b: Self) {
    }

    proof fn leq_trans(a: Self, b: Self, c: Self) {
    }
}

/// The meta a record yields: its mapped category text, its score, and under
/// the diversity strategy its instruction fingerprint.
pub open spec fn meta_spec(rec: JsonSpec, id: usize, fm: FieldMap, strategy: Seq<char>) -> (
    Option<Seq<char>>,
    i64,
    u64,
) {
    (
        extract_text(rec, ov(fm.category)),
        score_of(or_empty(extract_text(rec, ov(fm.score)))),
        if strategy == "diversity"@ {
            simhash_spec(or_empty(extract_text(rec, ov(fm.instruction))))
        } else {
            0
        },
    )
}

/// Runtime form of [`meta_spec`].
pub fn build_record_meta(record: &JsonValue, id: usize, field_map: &FieldMap, strategy: &str) -> (r:
    RecordMeta)
    ensures
        r.id == id,
        (ov(r.category), r.score, r.signature) == meta_spec(record@, id, *field_map, strategy@),
{
    let category = crate::records::extract_text_value(record, &field_map.category);
    let score = match crate::records::extract_text_value(record, &field_map.score) {
        Some(t) => parse_score(t.as_str()),
        None => parse_score(""),
    };
    proof {
        reveal_strlit("");
        assert((""@).len() == 0);
        assert(score_of(""@) == 0) by {
            assert(score_of(Seq::<char>::empty()) == 0);
            assert(""@ =~= Seq::<char>::empty());
        }
    }
    let signature: u64 = if crate::text::str_eq(strategy, "diversity") {
        let itext = crate::records::text_or_empty(record, &field_map.instruction);
        simhash(itext.as_str())
    } else {
        0
    };
    RecordMeta { id, category, score, signature }
}

/// The ids of a meta list, in order.
pub open spec fn ids_of(ms: Seq<RecordMeta>) -> Seq<usize> {
    Seq::new(ms.len(), |i: int| ms[i].id)
}

/// The first `t` ids of a meta list.
pub open spec fn take_ids(ms: Seq<RecordMeta>, t: nat) -> Seq<usize> {
    if t < ms.len() {
        ids_of(ms).subrange(0, t as int)
    } else {
        ids_of(ms)
    }
}

/// The diversity bucket of a fingerprint: its high 12 bits.
pub open spec fn bucket_key(sig: u64) -> u16 {
    (sig >> 52u64) as u16
}

/// The meta list stored under `k`.
pub open spec fn mbucket_get(bs: Seq<(u16, Seq<RecordMeta>)>, k: u16) -> Seq<RecordMeta>
    decreases bs.len(),
{
    if bs.len() == 0 {
        Seq::empty()
    } else if bs[0].0 == k {
        bs[0].1
    } else {
        mbucket_get(bs.drop_first(), k)
    }
}

/// `m` appended under `k`, first appearance order kept.
pub open spec fn mbucket_push(bs: Seq<(u16, Seq<RecordMeta>)>, k: u16, m: RecordMeta) -> Seq<
    (u16, Seq<RecordMeta>),
>
    decreases bs.len(),
{
    if bs.len() == 0 {
        seq![(k, seq![m])]
    } else if bs[0].0 == k {
        seq![(bs[0].0, bs[0].1.push(m))] + bs.drop_first()
    } else {
        seq![bs[0]] + mbucket_push(bs.drop_first(), k, m)
    }
}

/// Metas grouped by bucket key, keys in first-appearance order.
pub open spec fn mbuckets(ms: Seq<RecordMeta>) -> Seq<(u16, Seq<RecordMeta>)>
    decreases ms.len(),
{
    if ms.len() == 0 {
        Seq::empty()
    } else {
        mbucket_push(mbuckets(ms.drop_last()), bucket_key(ms.last().signature), ms.last())
    }
}

/// Each bucket list sorted by score and shuffled, threading the generator
/// through the buckets in stored order.
pub open spec fn prep_buckets(bs: Seq<(u16, Seq<RecordMeta>)>, st: u64) -> (
    Seq<(u16, Seq<RecordMeta>)>,
    u64,
)
    decreases bs.len(),
{
    if bs.len() == 0 {
        (bs, st)
    } else {
        let p = shuffle_spec(sort_elems(bs[0].1), st);
        let rest = prep_buckets(bs.drop_first(), p.1);
        (seq![(bs[0].0, p.0)] + rest.0, rest.1)
    }
}

/// The stored bucket keys, in order.
pub open spec fn keys_of(bs: Seq<(u16, Seq<RecordMeta>)>) -> Seq<u16> {
    Seq::new(bs.len(), |i: int| bs[i].0)
}

/// The list under `k` replaced.
pub open spec fn mbucket_set(bs: Seq<(u16, Seq<RecordMeta>)>, k: u16, l: Seq<RecordMeta>) -> Seq<
    (u16, Seq<RecordMeta>),
>
    decreases bs.len(),
{
    if bs.len() == 0 {
        bs
    } else if bs[0].0 == k {
        seq![(bs[0].0, l)] + bs.drop_first()
    } else {
        seq![bs[0]] + mbucket_set(bs.drop_first(), k, l)
    }
}

/// One round-robin pass from key position `ki`: pop the top of each
/// non-empty bucket until the target is met.
pub open spec fn rr_pass(
    bs: Seq<(u16, Seq<RecordMeta>)>,
    keys: Seq<u16>,
    ki: int,
    acc: Seq<usize>,
    target: nat,
) -> (Seq<(u16, Seq<RecordMeta>)>, Seq<usize>, bool)
    decreases keys.len() - ki,
{
    if ki >= keys.len() || acc.len() >= target {
        (bs, acc, false)
    } else {
        let l = mbucket_get(bs, keys[ki]);
        if l.len() > 0 {
            let rest = rr_pass(
                mbucket_set(bs, keys[ki], l.drop_last()),
                keys,
                ki + 1,
                acc.push(l.last().id),
                target,
            );
            (rest.0, rest.1, true)
        } else {
            rr_pass(bs, keys, ki + 1, acc, target)
        }
    }
}

/// Round-robin passes until the target is met or a pass yields nothing;
/// `fuel` bounds the passes.
pub open spec fn rr_all(
    bs: Seq<(u16, Seq<RecordMeta>)>,
    keys: Seq<u16>,
    acc: Seq<usize>,
    target: nat,
    fuel: nat,
) -> Seq<usize>
    decreases fuel,
{
    if fuel == 0 {
        acc
    } else {
        let p = rr_pass(bs, keys, 0, acc, target);
        if !p.2 || p.1.len() >= target {
            p.1
        } else {
            rr_all(p.0, keys, p.1, target, (fuel - 1) as nat)
        }
    }
}

/// The diversity selection: bucket, order, shuffle, round-robin.
pub open spec fn diversity_ids(ms: Seq<RecordMeta>, target: nat, st: u64) -> Seq<usize> {
    let bs = mbuckets(ms);
    let p = prep_buckets(bs, st);
    let kp = shuffle_spec(keys_of(bs), p.1);
    rr_all(p.0, kp.0, Seq::empty(), target, (ms.len() + 1) as nat)
}

/// The ids one strategy run yields, before the final ascending sort.
pub open spec fn strategy_ids(ms: Seq<RecordMeta>, target: nat, cfg: DistillConfig) -> Seq<
    usize,
> {
    let seed = match cfg.random_seed {
        Some(s) => s,
        None => 42,
    };
    if cfg.strategy@ == "importance"@ {
        take_ids(sort_elems(ms), target)
    } else if cfg.strategy@ == "random"@ {
        let p = shuffle_spec(ids_of(ms), seed);
        if target < p.0.len() {
            p.0.subrange(0, target as int)
        } else {
            p.0
        }
    } else {
        diversity_ids(ms, target, seed)
    }
}

/// One strategy run, sorted ascending.
pub open spec fn apply_strategy_spec(ms: Seq<RecordMeta>, target: nat, cfg: DistillConfig) -> Seq<
    usize,
> {
    sort_elems(strategy_ids(ms, target, cfg))
}

/// A copy of one meta.
fn clone_meta(m: &RecordMeta) -> (r: RecordMeta)
    ensures
        r == *m,
{
    let category = match &m.category {
        Some(c) => Some(c.clone()),
        None => None,
    };
    proof {
        match m.category {
            Some(_) => {},
            None => {},
        }
    }
    RecordMeta { id: m.id, category, score: m.score, signature: m.signature }
}

/// Elements of a meta vector, copied.
fn copy_metas(v: &Vec<RecordMeta>) -> (r: Vec<RecordMeta>)
    ensures
        r@ == v@,
{
    let mut out: Vec<RecordMeta> = Vec::new();
    let n = v.len();
    let mut i: usize = 0;
    while i < n
        invariant
            i <= n,
            n == v@.len(),
            out@ =~= v@.subrange(0, i as int),
        decreases n - i,
    {
        out.push(clone_meta(&v[i]));
        proof {
            assert(out@ =~= v@.subrange(0, i as int + 1));
        }
        i = i + 1;
    }
    proof {
        assert(out@ =~= v@);
    }
    out
}

/// The first `upto` elements of a meta vector, copied.
fn copy_metas_prefix(v: &Vec<RecordMeta>, upto: usize) -> (r: Vec<RecordMeta>)
    requires
        upto <= v@.len(),
    ensures
        r@ == v@.subrange(0, upto as int),
{
    let mut out: Vec<RecordMeta> = Vec::new();
    let mut i: usize = 0;
    while i < upto
        invariant
            i <= upto <= v@.len(),
            out@ =~= v@.subrange(0, i as int),
        decreases upto - i,
    {
        out.push(clone_meta(&v[i]));
        proof {
            assert(out@ =~= v@.subrange(0, i as int + 1));
        }
        i = i + 1;
    }
    proof {
        assert(out@ =~= v@.subrange(0, upto as int));
    }
    out
}

/// The ids of the metas, in order.
fn ids_of_x(ms: &Vec<RecordMeta>) -> (r: Vec<usize>)
    ensures
        r@ == ids_of(ms@),
{
    let mut out: Vec<usize> = Vec::new();
    let n = ms.len();
    let mut i: usize = 0;
    while i < n
        invariant
            i <= n,
            n == ms@.len(),
            out@ =~= ids_of(ms@).subrange(0, i as int),
        decreases n - i,
    {
        out.push(ms[i].id);
        proof {
            assert(out@ =~= ids_of(ms@).subrange(0, i as int + 1));
        }
        i = i + 1;
    }
    proof {
        assert(out@ =~= ids_of(ms@));
    }
    out
}

/// Index of the bucket under `k`, if any.
fn mbucket_find(bs: &Vec<(u16, Vec<RecordMeta>)>, k: u16) -> (r: Option<usize>)
    ensures
        match r {
            Some(ix) => ix < bs@.len() && bs@[ix as int].0 == k && mbucket_get(bs.deep_view(), k)
                == bs@[ix as int].1@ && (forall|t: int| 0 <= t < ix ==> (#[trigger] bs@[t]).0 != k),
            None => mbucket_get(bs.deep_view(), k) == Seq::<RecordMeta>::empty() && (forall|t: int|
                0 <= t < bs@.len() ==> (#[trigger] bs@[t]).0 != k),
        },
{
    let n = bs.len();
    let mut i: usize = 0;
    proof {
        assert(bs.deep_view().skip(0) =~= bs.deep_view());
    }
    while i < n
        invariant
            i <= n,
            n == bs@.len(),
            mbucket_get(bs.deep_view(), k) == mbucket_get(bs.deep_view().skip(i as int), k),
            forall|t: int| 0 <= t < i ==> (#[trigger] bs@[t]).0 != k,
        decreases n - i,
    {
        proof {
            let dv = bs.deep_view();
            assert(dv.skip(i as int)[0] == dv[i as int]);
            assert(dv[i as int] == (bs@[i as int].0, bs@[i as int].1@));
            assert(dv.skip(i as int).drop_first() =~= dv.skip(i as int + 1));
        }
        if bs[i].0 == k {
            return Some(i);
        }
        i = i + 1;
    }
    proof {
        assert(bs.deep_view().skip(n as int) =~= Seq::<(u16, Seq<RecordMeta>)>::empty());
    }
    None
}

proof fn lemma_mbucket_push_at(bs: Seq<(u16, Seq<RecordMeta>)>, k: u16, m: RecordMeta, ix: int)
    requires
        0 <= ix < bs.len(),
        bs[ix].0 == k,
        forall|t: int| 0 <= t < ix ==> (#[trigger] bs[t]).0 != k,
    ensures
        mbucket_push(bs, k, m) == bs.update(ix, (k, bs[ix].1.push(m))),
    decreases ix,
{
    if ix == 0 {
        assert(mbucket_push(bs, k, m) =~= bs.update(0, (k, bs[0].1.push(m))));
    } else {
        assert(bs.drop_first()[ix - 1] == bs[ix]);
        assert(forall|t: int| 0 <= t < ix - 1 ==> (#[trigger] bs.drop_first()[t]).0 != k) by {
            assert(forall|t: int| 0 <= t < ix - 1 ==> bs.drop_first()[t] == bs[t + 1]);
        }
        lemma_mbucket_push_at(bs.drop_first(), k, m, ix - 1);
        assert(mbucket_push(bs, k, m) =~= bs.update(ix, (k, bs[ix].1.push(m))));
    }
}

proof fn lemma_mbucket_push_new(bs: Seq<(u16, Seq<RecordMeta>)>, k: u16, m: RecordMeta)
    requires
        forall|t: int| 0 <= t < bs.len() ==> (#[trigger] bs[t]).0 != k,
    ensures
        mbucket_push(bs, k, m) == bs.push((k, seq![m])),
    decreases bs.len(),
{
    if bs.len() == 0 {
        assert(mbucket_push(bs, k, m) =~= bs.push((k, seq![m])));
    } else {
        assert(forall|t: int|
            0 <= t < bs.drop_first().len() ==> (#[trigger] bs.drop_first()[t]).0 != k) by {
            assert(forall|t: int|
                0 <= t < bs.drop_first().len() ==> bs.drop_first()[t] == bs[t + 1]);
        }
        lemma_mbucket_push_new(bs.drop_first(), k, m);
        assert(mbucket_push(bs, k, m) =~= bs.push((k, seq![m])));
    }
}

proof fn lemma_mbucket_set_at(bs: Seq<(u16, Seq<RecordMeta>)>, k: u16, l: Seq<RecordMeta>, ix: int)
    requires
        0 <= ix < bs.len(),
        bs[ix].0 == k,
        forall|t: int| 0 <= t < ix ==> (#[trigger] bs[t]).0 != k,
    ensures
        mbucket_set(bs, k, l) == bs.update(ix, (k, l)),
    decreases ix,
{
    if ix == 0 {
        assert(mbucket_set(bs, k, l) =~= bs.update(0, (k, l)));
    } else {
        assert(bs.drop_first()[ix - 1] == bs[ix]);
        assert(forall|t: int| 0 <= t < ix - 1 ==> (#[trigger] bs.drop_first()[t]).0 != k) by {
            assert(forall|t: int| 0 <= t < ix - 1 ==> bs.drop_first()[t] == bs[t + 1]);
        }
        lemma_mbucket_set_at(bs.drop_first(), k, l, ix - 1);
        assert(mbucket_set(bs, k, l) =~= bs.update(ix, (k, l)));
    }
}

/// The diversity strategy at runtime; mirrors [`diversity_ids`].
#[verifier::loop_isolation(false)]
#[verifier::rlimit(100)]
fn diversity_select(metas: &Vec<RecordMeta>, target: usize, rng: &mut Rng) -> (r: Vec<usize>)
    ensures
        r@ == diversity_ids(metas@, target as nat, old(rng).state),
{
    // group into buckets, first-appearance order
    let mut bs: Vec<(u16, Vec<RecordMeta>)> = Vec::new();
    let n = metas.len();
    let mut i: usize = 0;
    proof {
        assert(metas@.subrange(0, 0) =~= Seq::<RecordMeta>::empty());
        assert(bs.deep_view() =~= Seq::<(u16, Seq<RecordMeta>)>::empty());
    }
    while i < n
        invariant
            i <= n,
            bs.deep_view() == mbuckets(metas@.subrange(0, i as int)),
        decreases n - i,
    {
        let m = clone_meta(&metas[i]);
        let sig = m.signature;
        let k = (sig >> 52u64) as u16;
        proof {
            assert((sig >> 52u64) <= 0xFFF) by (bit_vector);
            assert(k == bucket_key(sig));
        }
        let ghost before = bs.deep_view();
        match mbucket_find(&bs, k) {
            Some(ix) => {
                let mut list = copy_metas(&bs[ix].1);
                list.push(m);
                bs.set(ix, (k, list));
                proof {
                    lemma_mbucket_push_at(before, k, metas@[i as int], ix as int);
                    assert(bs.deep_view() =~~= before.update(
                        ix as int,
                        (k, before[ix as int].1.push(metas@[i as int])),
                    ));
                }
            },
            None => {
                let mut list: Vec<RecordMeta> = Vec::new();
                list.push(m);
                bs.push((k, list));
                proof {
                    lemma_mbucket_push_new(before, k, metas@[i as int]);
                    assert(bs.deep_view() =~~= before.push((k, seq![metas@[i as int]])));
                }
            },
        }
        proof {
            assert(metas@.subrange(0, i as int + 1).drop_last() =~= metas@.subrange(0, i as int));
            assert(metas@.subrange(0, i as int + 1).last() == metas@[i as int]);
            assert(bs.deep_view() == mbuckets(metas@.subrange(0, i as int + 1)));
        }
        i = i + 1;
    }
    proof {
        assert(metas@.subrange(0, n as int) =~= metas@);
    }
    let ghost bs0 = bs.deep_view();
    let ghost st0 = rng.state;
    // sort and shuffle each bucket, threading the generator in stored order
    let mut prepped: Vec<(u16, Vec<RecordMeta>)> = Vec::new();
    let bn = bs.len();
    let mut bi: usize = 0;
    proof {
        assert(prepped.deep_view() =~= Seq::<(u16, Seq<RecordMeta>)>::empty());
        assert(bs0.skip(0) =~= bs0);
    }
    while bi < bn
        invariant
            bi <= bn,
            bn == bs@.len(),
            bs.deep_view() == bs0,
            prep_buckets(bs0, st0).0 == prepped.deep_view() + prep_buckets(
                bs0.skip(bi as int),
                rng.state,
            ).0,
            prep_buckets(bs0, st0).1 == prep_buckets(bs0.skip(bi as int), rng.state).1,
        decreases bn - bi,
    {
        let ghost st_here = rng.state;
        let mut list = copy_metas(&bs[bi].1);
        let key = bs[bi].0;
        proof {
            assert(bs0[bi as int] == (bs@[bi as int].0, bs@[bi as int].1@));
        }
        let mut sorted = insertion_sort(&mut list);
        let shuffled = shuffle_vec(&mut sorted, rng);
        let ghost prepped_before = prepped.deep_view();
        prepped.push((key, shuffled));
        proof {
            let rest = bs0.skip(bi as int);
            assert(rest[0] == bs0[bi as int]);
            assert(rest.drop_first() =~= bs0.skip(bi as int + 1));
            let p = shuffle_spec(sort_elems(bs0[bi as int].1), st_here);
            assert(shuffled@ == p.0);
            assert(prepped.deep_view() =~~= prepped_before.push((key, p.0)));
            assert(prepped_before + (seq![(bs0[bi as int].0, p.0)] + prep_buckets(
                bs0.skip(bi as int + 1),
                rng.state,
            ).0) =~= prepped.deep_view() + prep_buckets(bs0.skip(bi as int + 1), rng.state).0);
        }
        bi = bi + 1;
    }
    proof {
        assert(bs0.skip(bn as int) =~= Seq::<(u16, Seq<RecordMeta>)>::empty());
        assert(prepped.deep_view() + Seq::<(u16, Seq<RecordMeta>)>::empty() =~= prepped.deep_view());
        assert(prepped.deep_view() == prep_buckets(bs0, st0).0);
    }
    // shuffle the key order
    let mut keys: Vec<u16> = Vec::new();
    let mut ki: usize = 0;
    while ki < bn
        invariant
            ki <= bn,
            bn == bs@.len(),
            bs.deep_view() == bs0,
            keys@ =~= keys_of(bs0).subrange(0, ki as int),
        decreases bn - ki,
    {
        keys.push(bs[ki].0);
        proof {
            assert(keys@ =~= keys_of(bs0).subrange(0, ki as int + 1));
        }
        ki = ki + 1;
    }
    proof {
        assert(keys@ =~= keys_of(bs0));
    }
    let kshuf = shuffle_vec(&mut keys, rng);
    let ghost kseq = kshuf@;
    // round-robin passes
    let mut cur = prepped;
    let ghost cur0 = cur.deep_view();
    let mut acc: Vec<usize> = Vec::new();
    let mut fuel: u128 = n as u128 + 1;
    let ghost fuel0: nat = (metas@.len() + 1) as nat;
    let kn = kshuf.len();
    proof {
        assert(fuel == fuel0);
        assert(rr_all(cur0, kseq, Seq::empty(), target as nat, fuel0) == diversity_ids(
            metas@,
            target as nat,
            st0,
        ));
    }
    loop
        invariant
            fuel <= fuel0,
            kn == kseq.len(),
            kshuf@ == kseq,
            rr_all(cur0, kseq, Seq::empty(), target as nat, fuel0) == rr_all(
                cur.deep_view(),
                kseq,
                acc@,
                target as nat,
                fuel as nat,
            ),
        decreases fuel,
    {
        if fuel == 0 {
            return acc;
        }
        let ghost pass_bs = cur.deep_view();
        let ghost pass_acc = acc@;
        let mut progressed: bool = false;
        let mut ki: usize = 0;
        let mut met: bool = acc.len() >= target;
        while ki < kn && !met
            invariant
                ki <= kn,
                kn == kseq.len(),
                kshuf@ == kseq,
                met == (acc@.len() >= target),
                rr_pass(pass_bs, kseq, 0, pass_acc, target as nat) == ({
                    let sub = rr_pass(cur.deep_view(), kseq, ki as int, acc@, target as nat);
                    (sub.0, sub.1, progressed || sub.2)
                }),
            decreases kn - ki,
        {
            let k = kshuf[ki];
            let ghost dv_here = cur.deep_view();
            let ghost acc_here = acc@;
            let ghost prog_here = progressed;
            proof {
                assert(k == kseq[ki as int]);
            }
            match mbucket_find(&cur, k) {
                Some(ix) => {
                    let blen = cur[ix].1.len();
                    if blen > 0 {
                        let last_meta = clone_meta(&cur[ix].1[blen - 1]);
                        let l2 = copy_metas_prefix(&cur[ix].1, blen - 1);
                        cur.set(ix, (k, l2));
                        acc.push(last_meta.id);
                        progressed = true;
                        proof {
                            let l = mbucket_get(dv_here, k);
                            assert(l == dv_here[ix as int].1);
                            assert(l.len() == blen);
                            assert(l2@ =~= l.drop_last());
                            lemma_mbucket_set_at(dv_here, k, l.drop_last(), ix as int);
                            assert(cur.deep_view() =~~= dv_here.update(
                                ix as int,
                                (k, l.drop_last()),
                            ));
                            assert(cur.deep_view() == mbucket_set(dv_here, k, l.drop_last()));
                            assert(last_meta == l.last());
                            assert(acc@ == acc_here.push(l.last().id));
                            let sub_old = rr_pass(dv_here, kseq, ki as int, acc_here, target as nat);
                            let rest = rr_pass(
                                cur.deep_view(),
                                kseq,
                                ki as int + 1,
                                acc@,
                                target as nat,
                            );
                            assert(sub_old == (rest.0, rest.1, true));
                        }
                    } else {
                        proof {
                            assert(mbucket_get(dv_here, k).len() == 0);
                        }
                    }
                },
                None => {
                },
            }
            met = acc.len() >= target;
            ki = ki + 1;
        }
        proof {
            let full = rr_pass(pass_bs, kseq, 0, pass_acc, target as nat);
            if ki >= kn || met {
                let sub = rr_pass(cur.deep_view(), kseq, ki as int, acc@, target as nat);
                assert(sub == (cur.deep_view(), acc@, false));
                assert(full == (cur.deep_view(), acc@, progressed));
            }
        }
        if !progressed || acc.len() >= target {
            proof {
                let full = rr_pass(pass_bs, kseq, 0, pass_acc, target as nat);
                assert(rr_all(pass_bs, kseq, pass_acc, target as nat, fuel as nat) == full.1);
            }
            return acc;
        }
        fuel = fuel - 1;
        proof {
            let full = rr_pass(pass_bs, kseq, 0, pass_acc, target as nat);
            assert(rr_all(pass_bs, kseq, pass_acc, target as nat, (fuel + 1) as nat) == rr_all(
                full.0,
                kseq,
                full.1,
                target as nat,
                fuel as nat,
            ));
        }
    }
}


/// The requested sample size for `total` records: the configured count, else
/// the configured share of the total rounded half up, else a tenth; always
/// clamped between one and the total.
pub open spec fn target_of(cfg: DistillConfig, total: nat) -> nat {
    let raw: nat = match cfg.target_count {
        Some(c) => c as nat,
        None => match cfg.target_percent {
            Some(p) => ((p * total + 5000) / 10000) as nat,
            None => ((1000 * total + 5000) / 10000) as nat,
        },
    };
    if raw < 1 {
        1
    } else if raw > total {
        total
    } else {
        raw
    }
}

/// Runtime form of [`target_of`].
fn target_size(cfg: &DistillConfig, total: usize) -> (r: usize)
    requires
        total > 0,
    ensures
        r == target_of(*cfg, total as nat),
        1 <= r <= total,
{
    let raw128: u128 = match cfg.target_count {
        Some(c) => c as u128,
        None => match cfg.target_percent {
            Some(p) => {
                let p128 = p as u128;
                let t128 = total as u128;
                proof {
                    assert(p128 <= 0xFFFF_FFFF);
                    assert(t128 <= 0xFFFF_FFFF_FFFF_FFFF);
                    assert(p128 * t128 <= 0xFFFF_FFFF * 0xFFFF_FFFF_FFFF_FFFF)
                        by (nonlinear_arith)
                        requires
                            p128 <= 0xFFFF_FFFF,
                            t128 <= 0xFFFF_FFFF_FFFF_FFFF,
                            0 <= p128,
                            0 <= t128,
                    ;
                }
                (p128 * t128 + 5000) / 10000
            },
            None => (1000 * (total as u128) + 5000) / 10000,
        },
    };
    let total128 = total as u128;
    let clamped: u128 = if raw128 < 1 {
        1
    } else if raw128 > total128 {
        total128
    } else {
        raw128
    };
    clamped as usize
}

/// One strategy run at runtime: mirror of [`apply_strategy_spec`].
pub fn apply_strategy(metas: &Vec<RecordMeta>, target: usize, config: &DistillConfig) -> (r: Vec<
    usize,
>)
    ensures
        r@ == apply_strategy_spec(metas@, target as nat, *config),
{
    let seed: u64 = match config.random_seed {
        Some(s) => s,
        None => 42,
    };
    let mut rng = Rng::seeded(seed);
    let mut sel: Vec<usize>;
    if crate::text::str_eq(config.strategy.as_str(), "importance") {
        let mut ms = copy_metas(metas);
        let sorted = insertion_sort(&mut ms);
        let mut out: Vec<usize> = Vec::new();
        let upto: usize = if target < sorted.len() {
            target
        } else {
            sorted.len()
        };
        let mut t: usize = 0;
        while t < upto
            invariant
                t <= upto,
                upto <= sorted@.len(),
                sorted@ == sort_elems(metas@),
                out@ =~= ids_of(sorted@).subrange(0, t as int),
            decreases upto - t,
        {
            out.push(sorted[t].id);
            proof {
                assert(out@ =~= ids_of(sorted@).subrange(0, t as int + 1));
            }
            t = t + 1;
        }
        proof {
            if target < sorted@.len() {
                assert(out@ =~= take_ids(sort_elems(metas@), target as nat));
            } else {
                assert(out@ =~= ids_of(sorted@));
                assert(out@ =~= take_ids(sort_elems(metas@), target as nat));
            }
        }
        sel = out;
    } else if crate::text::str_eq(config.strategy.as_str(), "random") {
        let mut ids = ids_of_x(metas);
        let mut shuf = shuffle_vec(&mut ids, &mut rng);
        let ghost full = shuf@;
        shuf.truncate(target);
        proof {
            let p = shuffle_spec(ids_of(metas@), seed);
            if target < p.0.len() {
                assert(shuf@ == p.0.subrange(0, target as int));
            } else {
                assert(shuf@ == p.0);
            }
        }
        sel = shuf;
    } else {
        sel = diversity_select(metas, target, &mut rng);
    }
    let sorted = insertion_sort(&mut sel);
    sorted
}

/// An allocation entry for one category: the partition entry it stands for,
/// its size and its share of the target.
pub struct CatAlloc {
    pub part: usize,
    pub count: usize,
    pub alloc: usize,
}

impl View for CatAlloc {
    type V = CatAlloc;

    open spec fn view(&self) -> CatAlloc {
        *self
    }
}

impl DeepView for CatAlloc {
    type V = CatAlloc;

    open spec fn deep_view(&self) -> CatAlloc {
        *self
    }
}

/// Bigger categories first, ties in arrival order.
impl SortKey for CatAlloc {
    open spec fn leq_spec(self, other: Self) -> bool {
        self.count >= other.count
    }

    fn leq(&self, other: &Self) -> (r: bool) {
        self.count >= other.count
    }

    proof fn leq_total(a: Self, b: Self) {
    }

    proof fn leq_trans(a: Self, b: Self, c: Self) {
    }
}

/// The category a meta files under.
pub open spec fn cat_key(m: RecordMeta) -> Seq<char> {
    match m.category {
        Some(c) => c@,
        None => "uncategorized"@,
    }
}

/// The meta list stored under category `k`.
pub open spec fn cbucket_get(bs: Seq<(Seq<char>, Seq<RecordMeta>)>, k: Seq<char>) -> Seq<
    RecordMeta,
>
    decreases bs.len(),
{
    if bs.len() == 0 {
        Seq::empty()
    } else if bs[0].0 == k {
        bs[0].1
    } else {
        cbucket_get(bs.drop_first(), k)
    }
}

/// `m` appended under category `k`, first-appearance order kept.
pub open spec fn cbucket_push(
    bs: Seq<(Seq<char>, Seq<RecordMeta>)>,
    k: Seq<char>,
    m: RecordMeta,
) -> Seq<(Seq<char>, Seq<RecordMeta>)>
    decreases bs.len(),
{
    if bs.len() == 0 {
        seq![(k, seq![m])]
    } else if bs[0].0 == k {
        seq![(bs[0].0, bs[0].1.push(m))] + bs.drop_first()
    } else {
        seq![bs[0]] + cbucket_push(bs.drop_first(), k, m)
    }
}

/// Metas grouped by category, keys in first-appearance order.
pub open spec fn cpartition(ms: Seq<RecordMeta>) -> Seq<(Seq<char>, Seq<RecordMeta>)>
    decreases ms.len(),
{
    if ms.len() == 0 {
        Seq::empty()
    } else {
        cbucket_push(cpartition(ms.drop_last()), cat_key(ms.last()), ms.last())
    }
}

/// Share of the target for a category of `count` records: proportional,
/// rounded half up.
pub open spec fn alloc_round(count: nat, total: nat, target: nat) -> nat {
    ((count * target + total / 2) / total) as nat
}

/// The raw allocation entries, in partition order.
pub open spec fn allocs_of(
    parts: Seq<(Seq<char>, Seq<RecordMeta>)>,
    total: nat,
    target: nat,
) -> Seq<CatAlloc> {
    Seq::new(
        parts.len(),
        |i: int|
            CatAlloc {
                part: i as usize,
                count: parts[i].1.len() as usize,
                alloc: alloc_round(parts[i].1.len() as nat, total, target) as usize,
            },
    )
}

/// Allocation sum.
pub open spec fn sum_allocs(s: Seq<CatAlloc>) -> int
    decreases s.len(),
{
    if s.len() == 0 {
        0
    } else {
        s[0].alloc + sum_allocs(s.drop_first())
    }
}

/// Allocations bumped one by one, wrapping over the entries, until the sum
/// meets the target.
pub open spec fn top_up(s: Seq<CatAlloc>, allocated: int, idx: int, target: nat) -> Seq<CatAlloc>
    decreases target - allocated,
{
    if s.len() == 0 || allocated >= target || idx < 0 || idx >= s.len() {
        s
    } else {
        let e = s[idx];
        top_up(
            s.update(idx, CatAlloc { part: e.part, count: e.count, alloc: (e.alloc + 1) as usize }),
            allocated + 1,
            (idx + 1) % (s.len() as int),
            target,
        )
    }
}


/// The selections of the allocation entries, concatenated in entry order.
pub open spec fn strat_concat(
    allocs: Seq<CatAlloc>,
    parts: Seq<(Seq<char>, Seq<RecordMeta>)>,
    cfg: DistillConfig,
) -> Seq<usize>
    decreases allocs.len(),
{
    if allocs.len() == 0 {
        Seq::empty()
    } else {
        let a = allocs[0];
        let bucket = if a.part < parts.len() {
            parts[a.part as int].1
        } else {
            Seq::empty()
        };
        let cap: nat = if (a.alloc as nat) < bucket.len() {
            a.alloc as nat
        } else {
            bucket.len() as nat
        };
        apply_strategy_spec(bucket, cap, cfg) + strat_concat(allocs.drop_first(), parts, cfg)
    }
}

/// The whole selection for one meta list: the target share of every
/// category under stratification, else one strategy run; sorted ascending
/// and capped at the target.
pub open spec fn select_spec(ms: Seq<RecordMeta>, cfg: DistillConfig) -> Seq<usize> {
    let total = ms.len() as nat;
    if total == 0 {
        Seq::empty()
    } else {
        let target = target_of(cfg, total);
        if cfg.preserve_category_balance {
            let parts = cpartition(ms);
            let a1 = sort_elems(allocs_of(parts, total, target));
            let a2 = top_up(a1, sum_allocs(a1), 0, target);
            let cat_sel = sort_elems(strat_concat(a2, parts, cfg));
            if target < cat_sel.len() {
                cat_sel.subrange(0, target as int)
            } else {
                cat_sel
            }
        } else {
            apply_strategy_spec(ms, target, cfg)
        }
    }
}

/// Index of the partition entry under category `k`, if any.
fn cbucket_find(bs: &Vec<(String, Vec<RecordMeta>)>, k: &str) -> (r: Option<usize>)
    ensures
        match r {
            Some(ix) => ix < bs@.len() && bs@[ix as int].0@ == k@ && (forall|t: int|
                0 <= t < ix ==> (#[trigger] bs@[t]).0@ != k@),
            None => forall|t: int| 0 <= t < bs@.len() ==> (#[trigger] bs@[t]).0@ != k@,
        },
{
    let n = bs.len();
    let mut i: usize = 0;
    while i < n
        invariant
            i <= n,
            n == bs@.len(),
            forall|t: int| 0 <= t < i ==> (#[trigger] bs@[t]).0@ != k@,
        decreases n - i,
    {
        if crate::text::str_eq(bs[i].0.as_str(), k) {
            return Some(i);
        }
        i = i + 1;
    }
    None
}

proof fn lemma_cbucket_push_at(
    bs: Seq<(Seq<char>, Seq<RecordMeta>)>,
    k: Seq<char>,
    m: RecordMeta,
    ix: int,
)
    requires
        0 <= ix < bs.len(),
        bs[ix].0 == k,
        forall|t: int| 0 <= t < ix ==> (#[trigger] bs[t]).0 != k,
    ensures
        cbucket_push(bs, k, m) == bs.update(ix, (k, bs[ix].1.push(m))),
    decreases ix,
{
    if ix == 0 {
        assert(cbucket_push(bs, k, m) =~= bs.update(0, (k, bs[0].1.push(m))));
    } else {
        assert(bs.drop_first()[ix - 1] == bs[ix]);
        assert(forall|t: int| 0 <= t < ix - 1 ==> (#[trigger] bs.drop_first()[t]).0 != k) by {
            assert(forall|t: int| 0 <= t < ix - 1 ==> bs.drop_first()[t] == bs[t + 1]);
        }
        lemma_cbucket_push_at(bs.drop_first(), k, m, ix - 1);
        assert(cbucket_push(bs, k, m) =~= bs.update(ix, (k, bs[ix].1.push(m))));
    }
}

proof fn lemma_cbucket_push_new(bs: Seq<(Seq<char>, Seq<RecordMeta>)>, k: Seq<char>, m: RecordMeta)
    requires
        forall|t: int| 0 <= t < bs.len() ==> (#[trigger] bs[t]).0 != k,
    ensures
        cbucket_push(bs, k, m) == bs.push((k, seq![m])),
    decreases bs.len(),
{
    if bs.len() == 0 {
        assert(cbucket_push(bs, k, m) =~= bs.push((k, seq![m])));
    } else {
        assert(forall|t: int|
            0 <= t < bs.drop_first().len() ==> (#[trigger] bs.drop_first()[t]).0 != k) by {
            assert(forall|t: int|
                0 <= t < bs.drop_first().len() ==> bs.drop_first()[t] == bs[t + 1]);
        }
        lemma_cbucket_push_new(bs.drop_first(), k, m);
        assert(cbucket_push(bs, k, m) =~= bs.push((k, seq![m])));
    }
}

/// Each allocation is at most its category's size.
proof fn lemma_alloc_round_le(count: nat, total: nat, target: nat)
    requires
        total > 0,
        target <= total,
    ensures
        alloc_round(count, total, target) <= count,
{
    assert((count * target + total / 2) / total <= count) by (nonlinear_arith)
        requires
            total > 0,
            target <= total,
            0 <= count,
    ;
}

/// The whole selection at runtime: mirror of [`select_spec`].
#[verifier::loop_isolation(false)]
#[verifier::rlimit(100)]
pub fn select_records(metas: &Vec<RecordMeta>, config: &DistillConfig) -> (r: Vec<usize>)
    ensures
        r@ == select_spec(metas@, *config),
{
    let total = metas.len();
    if total == 0 {
        let empty: Vec<usize> = Vec::new();
        proof {
            assert(empty@ =~= select_spec(metas@, *config));
        }
        return empty;
    }
    let target = target_size(config, total);
    if !config.preserve_category_balance {
        return apply_strategy(metas, target, config);
    }
    // partition by category, first-appearance order
    let mut parts: Vec<(String, Vec<RecordMeta>)> = Vec::new();
    let mut i: usize = 0;
    proof {
        assert(metas@.subrange(0, 0) =~= Seq::<RecordMeta>::empty());
        assert(parts.deep_view() =~= Seq::<(Seq<char>, Seq<RecordMeta>)>::empty());
    }
    while i < total
        invariant
            i <= total,
            parts.deep_view() == cpartition(metas@.subrange(0, i as int)),
        decreases total - i,
    {
        let m = clone_meta(&metas[i]);
        let key: String = match &m.category {
            Some(c) => c.clone(),
            None => String::from_str("uncategorized"),
        };
        proof {
            assert(key@ == cat_key(metas@[i as int]));
        }
        let ghost before = parts.deep_view();
        match cbucket_find(&parts, key.as_str()) {
            Some(ix) => {
                let mut list = copy_metas(&parts[ix].1);
                list.push(m);
                let oldkey = parts[ix].0.clone();
                parts.set(ix, (oldkey, list));
                proof {
                    lemma_cbucket_push_at(before, cat_key(metas@[i as int]), metas@[i as int], ix as int);
                    assert(parts.deep_view() =~~= before.update(
                        ix as int,
                        (before[ix as int].0, before[ix as int].1.push(metas@[i as int])),
                    ));
                }
            },
            None => {
                let mut list: Vec<RecordMeta> = Vec::new();
                list.push(m);
                parts.push((key, list));
                proof {
                    lemma_cbucket_push_new(before, cat_key(metas@[i as int]), metas@[i as int]);
                    assert(parts.deep_view() =~~= before.push(
                        (cat_key(metas@[i as int]), seq![metas@[i as int]]),
                    ));
                }
            },
        }
        proof {
            assert(metas@.subrange(0, i as int + 1).drop_last() =~= metas@.subrange(0, i as int));
            assert(metas@.subrange(0, i as int + 1).last() == metas@[i as int]);
            assert(parts.deep_view() == cpartition(metas@.subrange(0, i as int + 1)));
        }
        i = i + 1;
    }
    proof {
        assert(metas@.subrange(0, total as int) =~= metas@);
    }
    let ghost pdv = parts.deep_view();
    // raw allocations, in partition order
    let pn = parts.len();
    let mut allocs: Vec<CatAlloc> = Vec::new();
    let mut i: usize = 0;
    proof {
        assert(pdv.len() == pn);
    }
    while i < pn
        invariant
            i <= pn,
            allocs@ =~= allocs_of(pdv, total as nat, target as nat).subrange(0, i as int),
        decreases pn - i,
    {
        let count = parts[i].1.len();
        let c128 = count as u128;
        let t128 = target as u128;
        let tot128 = total as u128;
        proof {
            assert(c128 <= 0xFFFF_FFFF_FFFF_FFFF);
            assert(t128 <= 0xFFFF_FFFF_FFFF_FFFF);
            assert(c128 * t128 <= 0xFFFF_FFFF_FFFF_FFFF * 0xFFFF_FFFF_FFFF_FFFF)
                by (nonlinear_arith)
                requires
                    c128 <= 0xFFFF_FFFF_FFFF_FFFF,
                    t128 <= 0xFFFF_FFFF_FFFF_FFFF,
                    0 <= c128,
                    0 <= t128,
            ;
            lemma_alloc_round_le(count as nat, total as nat, target as nat);
        }
        let share128 = (c128 * t128 + tot128 / 2) / tot128;
        let share = share128 as usize;
        proof {
            assert(share == alloc_round(count as nat, total as nat, target as nat));
        }
        allocs.push(CatAlloc { part: i, count, alloc: share });
        proof {
            assert(allocs@ =~= allocs_of(pdv, total as nat, target as nat).subrange(
                0,
                i as int + 1,
            ));
        }
        i = i + 1;
    }
    proof {
        assert(allocs@ =~= allocs_of(pdv, total as nat, target as nat));
    }
    // sort big categories first, then top up to the target
    let mut sorted_allocs = insertion_sort(&mut allocs);
    let ghost a1 = sorted_allocs@;
    let an = sorted_allocs.len();
    let mut allocated: u128 = 0;
    let mut i: usize = 0;
    proof {
        assert(a1.skip(0) =~= a1);
    }
    while i < an
        invariant
            i <= an,
            an == sorted_allocs@.len(),
            sorted_allocs@ == a1,
            allocated + sum_allocs(a1.skip(i as int)) == sum_allocs(a1),
            allocated <= 0xFFFF_FFFF_FFFF_FFFF * i,
        decreases an - i,
    {
        proof {
            assert(a1.skip(i as int)[0] == a1[i as int]);
            assert(a1.skip(i as int).drop_first() =~= a1.skip(i as int + 1));
        }
        allocated = allocated + sorted_allocs[i].alloc as u128;
        i = i + 1;
    }
    proof {
        assert(a1.skip(an as int) =~= Seq::<CatAlloc>::empty());
        assert(allocated == sum_allocs(a1));
    }
    let mut cur = sorted_allocs;
    let mut idx: usize = 0;
    proof {
        lemma_cpartition_nonempty(metas@);
        assert(pdv.len() > 0);
        crate::sorting::lemma_sort_elems_multiset(allocs_of(pdv, total as nat, target as nat));
        assert(a1.len() == pdv.len());
        assert(an > 0);
        lemma_sum_allocs_nonneg(a1);
    }
    while allocated < target as u128
        invariant
            an == cur@.len(),
            an > 0,
            idx < an,
            sum_allocs(cur@) == allocated as int,
            top_up(a1, sum_allocs(a1), 0, target as nat) == top_up(
                cur@,
                allocated as int,
                idx as int,
                target as nat,
            ),
        decreases target as int - allocated,
    {
        let ghost cur_old = cur@;
        let ghost idx_old = idx;
        let e_part = cur[idx].part;
        let e_count = cur[idx].count;
        let e_alloc = cur[idx].alloc;
        proof {
            lemma_sum_allocs_ge_elem(cur@, idx as int);
            assert(e_alloc as int <= allocated as int);
            assert((allocated as int) < target as int);
        }
        cur.set(idx, CatAlloc { part: e_part, count: e_count, alloc: e_alloc + 1 });
        allocated = allocated + 1;
        idx = if idx + 1 < an {
            idx + 1
        } else {
            0
        };
        proof {
            let bumped = CatAlloc { part: e_part, count: e_count, alloc: (e_alloc + 1) as usize };
            assert(cur@ =~= cur_old.update(idx_old as int, bumped));
            lemma_sum_allocs_update(cur_old, idx_old as int);
            assert(sum_allocs(cur@) == sum_allocs(cur_old) + 1);
            if idx_old + 1 < an {
                assert((idx_old as int + 1) % (an as int) == idx_old as int + 1)
                    by (nonlinear_arith)
                    requires
                        0 <= idx_old as int + 1 < an as int,
                ;
            } else {
                assert(idx_old as int + 1 == an as int);
                assert((an as int) % (an as int) == 0) by (nonlinear_arith)
                    requires
                        an as int > 0,
                ;
            }
            assert((idx as int) == (idx_old as int + 1) % (an as int));
            assert(top_up(cur_old, allocated as int - 1, idx_old as int, target as nat) == top_up(
                cur@,
                allocated as int,
                idx as int,
                target as nat,
            ));
        }
    }
    let ghost a2 = top_up(a1, sum_allocs(a1), 0, target as nat);
    proof {
        assert(cur@ == a2);
    }
    // select within each category, in allocation order
    let mut out: Vec<usize> = Vec::new();
    let mut i: usize = 0;
    proof {
        assert(cur@.skip(0) =~= cur@);
    }
    while i < an
        invariant
            i <= an,
            an == cur@.len(),
            cur@ == a2,
            pdv == parts.deep_view(),
            strat_concat(a2, pdv, *config) == out@ + strat_concat(
                a2.skip(i as int),
                pdv,
                *config,
            ),
        decreases an - i,
    {
        proof {
            assert(a2.skip(i as int)[0] == a2[i as int]);
            assert(a2.skip(i as int).drop_first() =~= a2.skip(i as int + 1));
        }
        let a_part = cur[i].part;
        let a_alloc = cur[i].alloc;
        let mut bucket: Vec<RecordMeta>;
        if a_part < parts.len() {
            bucket = copy_metas(&parts[a_part].1);
            proof {
                assert(bucket@ == pdv[a_part as int].1);
            }
        } else {
            bucket = Vec::new();
            proof {
                assert(bucket@ =~= Seq::<RecordMeta>::empty());
            }
        }
        let cap: usize = if a_alloc < bucket.len() {
            a_alloc
        } else {
            bucket.len()
        };
        let bsel = apply_strategy(&bucket, cap, config);
        let ghost out_before = out@;
        let bl = bsel.len();
        let mut t: usize = 0;
        while t < bl
            invariant
                t <= bl,
                bl == bsel@.len(),
                out@ =~= out_before + bsel@.subrange(0, t as int),
            decreases bl - t,
        {
            out.push(bsel[t]);
            proof {
                assert(out@ =~= out_before + bsel@.subrange(0, t as int + 1));
            }
            t = t + 1;
        }
        proof {
            assert(bsel@.subrange(0, bl as int) =~= bsel@);
            assert(out@ =~= out_before + bsel@);
            assert(out_before + (bsel@ + strat_concat(a2.skip(i as int + 1), pdv, *config)) =~= out@
                + strat_concat(a2.skip(i as int + 1), pdv, *config));
        }
        i = i + 1;
    }
    proof {
        assert(a2.skip(an as int) =~= Seq::<CatAlloc>::empty());
        assert(out@ + Seq::<usize>::empty() =~= out@);
        assert(out@ == strat_concat(a2, pdv, *config));
    }
    let mut sorted_sel = insertion_sort(&mut out);
    sorted_sel.truncate(target);
    proof {
        let cat_sel = sort_elems(strat_concat(a2, pdv, *config));
        if (target as int) < cat_sel.len() {
            assert(sorted_sel@ == cat_sel.subrange(0, target as int));
        } else {
            assert(sorted_sel@ == cat_sel);
        }
    }
    sorted_sel
}

proof fn lemma_cpartition_nonempty(ms: Seq<RecordMeta>)
    requires
        ms.len() > 0,
    ensures
        cpartition(ms).len() > 0,
{
    let prev = cpartition(ms.drop_last());
    lemma_cbucket_push_len(prev, cat_key(ms.last()), ms.last());
}

proof fn lemma_cbucket_push_len(bs: Seq<(Seq<char>, Seq<RecordMeta>)>, k: Seq<char>, m: RecordMeta)
    ensures
        cbucket_push(bs, k, m).len() >= 1,
    decreases bs.len(),
{
    if bs.len() > 0 && bs[0].0 != k {
        lemma_cbucket_push_len(bs.drop_first(), k, m);
    }
}

proof fn lemma_sum_allocs_nonneg(s: Seq<CatAlloc>)
    ensures
        sum_allocs(s) >= 0,
    decreases s.len(),
{
    if s.len() > 0 {
        lemma_sum_allocs_nonneg(s.drop_first());
    }
}

proof fn lemma_sum_allocs_ge_elem(s: Seq<CatAlloc>, i: int)
    requires
        0 <= i < s.len(),
    ensures
        s[i].alloc <= sum_allocs(s),
    decreases s.len(),
{
    lemma_sum_allocs_nonneg(s.drop_first());
    if i > 0 {
        lemma_sum_allocs_ge_elem(s.drop_first(), i - 1);
        assert(s.drop_first()[i - 1] == s[i]);
    }
}

proof fn lemma_sum_allocs_update(s: Seq<CatAlloc>, i: int)
    requires
        0 <= i < s.len(),
        s[i].alloc < usize::MAX,
    ensures
        sum_allocs(
            s.update(
                i,
                CatAlloc { part: s[i].part, count: s[i].count, alloc: (s[i].alloc + 1) as usize },
            ),
        ) == sum_allocs(s) + 1,
    decreases s.len(),
{
    let bumped = CatAlloc { part: s[i].part, count: s[i].count, alloc: (s[i].alloc + 1) as usize };
    if i == 0 {
        assert(s.update(0, bumped).drop_first() =~= s.drop_first());
    } else {
        assert(s.update(i, bumped)[0] == s[0]);
        assert(s.update(i, bumped).drop_first() =~= s.drop_first().update(i - 1, bumped));
        assert(s.drop_first()[i - 1] == s[i]);
        lemma_sum_allocs_update(s.drop_first(), i - 1);
    }
}


/// Membership test for an id vector.
pub fn contains_usize(v: &Vec<usize>, x: usize) -> (r: bool)
    ensures
        r == v@.contains(x),
{
    let n = v.len();
    let mut i: usize = 0;
    while i < n
        invariant
            i <= n,
            n == v@.len(),
            forall|k: int| 0 <= k < i ==> v@[k] != x,
        decreases n - i,
    {
        if v[i] == x {
            proof {
                assert(v@[i as int] == x);
            }
            return true;
        }
        i = i + 1;
    }
    proof {
        if v@.contains(x) {
            let k = choose|k: int| 0 <= k < v@.len() && v@[k] == x;
            assert(false);
        }
    }
    false
}

/// The base ids split around a selection: an id goes into the kept side when
/// it was selected and room remains under the target, else into the removed
/// side.
pub open spec fn split_ids(base: Seq<usize>, sel: Seq<usize>, room: nat) -> (Seq<usize>, Seq<usize>)
    decreases base.len(),
{
    if base.len() == 0 {
        (Seq::empty(), Seq::empty())
    } else if sel.contains(base[0]) && room > 0 {
        let p = split_ids(base.drop_first(), sel, (room - 1) as nat);
        (seq![base[0]] + p.0, p.1)
    } else {
        let p = split_ids(base.drop_first(), sel, room);
        (p.0, seq![base[0]] + p.1)
    }
}

/// What the split guarantees: a partition of the base, kept ids selected,
/// kept count within room, both sides ordered when the base is.
pub proof fn lemma_split_ids(base: Seq<usize>, sel: Seq<usize>, room: nat)
    requires
        sorted_strict_ids(base),
    ensures
        ({
            let p = split_ids(base, sel, room);
            &&& forall|x: usize| p.0.contains(x) ==> base.contains(x) && sel.contains(x)
            &&& forall|x: usize| p.1.contains(x) ==> base.contains(x)
            &&& forall|x: usize| base.contains(x) ==> p.0.contains(x) || p.1.contains(x)
            &&& forall|x: usize| !(p.0.contains(x) && p.1.contains(x))
            &&& p.0.len() <= room
            &&& p.0.len() + p.1.len() == base.len()
            &&& sorted_strict_ids(p.0)
            &&& sorted_strict_ids(p.1)
        }),
    decreases base.len(),
{
    if base.len() > 0 {
        let b0 = base[0];
        let rest = base.drop_first();
        assert(sorted_strict_ids(rest)) by {
            assert(forall|a: int, b: int|
                0 <= a < b < rest.len() ==> rest[a] == base[a + 1] && rest[b] == base[b + 1]);
        }
        assert(forall|x: usize| rest.contains(x) ==> base.contains(x)) by {
            assert(forall|k: int| 0 <= k < rest.len() ==> rest[k] == base[k + 1]);
        }
        assert(forall|x: usize| #[trigger] rest.contains(x) ==> x > b0) by {
            assert forall|x: usize| #[trigger] rest.contains(x) implies x > b0 by {
                let k = choose|k: int| 0 <= k < rest.len() && rest[k] == x;
                assert(base[k + 1] == x);
                assert(base[0] < base[k + 1]);
            }
        }
        assert(forall|x: usize| #[trigger] base.contains(x) ==> x == b0 || rest.contains(x)) by {
            assert forall|x: usize| #[trigger] base.contains(x) implies x == b0 || rest.contains(
                x,
            ) by {
                let k = choose|k: int| 0 <= k < base.len() && base[k] == x;
                if k > 0 {
                    assert(rest[k - 1] == x);
                }
            }
        }
        if sel.contains(b0) && room > 0 {
            lemma_split_ids(rest, sel, (room - 1) as nat);
            let p = split_ids(rest, sel, (room - 1) as nat);
            let w = split_ids(base, sel, room);
            assert(w.0 == seq![b0] + p.0);
            assert(forall|x: usize| #[trigger] w.0.contains(x) ==> x == b0 || p.0.contains(x)) by {
                assert forall|x: usize| #[trigger] w.0.contains(x) implies x == b0 || p.0.contains(
                    x,
                ) by {
                    let k = choose|k: int| 0 <= k < w.0.len() && w.0[k] == x;
                    if k > 0 {
                        assert(p.0[k - 1] == x);
                    }
                }
            }
            assert(forall|x: usize| p.0.contains(x) ==> #[trigger] w.0.contains(x)) by {
                assert(forall|k: int| 0 <= k < p.0.len() ==> w.0[k + 1] == p.0[k]);
            }
            assert(w.0.contains(b0)) by {
                assert(w.0[0] == b0);
            }
            assert(sorted_strict_ids(w.0)) by {
                assert forall|a: int, b: int| 0 <= a < b < w.0.len() implies w.0[a] < w.0[b] by {
                    if a == 0 {
                        assert(w.0[b] == p.0[b - 1]);
                        assert(p.0.contains(p.0[b - 1]));
                        assert(rest.contains(p.0[b - 1]));
                    } else {
                        assert(w.0[a] == p.0[a - 1] && w.0[b] == p.0[b - 1]);
                    }
                }
            }
            assert forall|x: usize| #[trigger] w.0.contains(x) implies base.contains(x)
                && sel.contains(x) by {
                if x == b0 {
                    assert(base[0] == b0);
                } else {
                    assert(p.0.contains(x));
                    assert(rest.contains(x));
                }
            }
            assert forall|x: usize| #[trigger] w.1.contains(x) implies base.contains(x) by {
                assert(p.1.contains(x));
                assert(rest.contains(x));
            }
            assert forall|x: usize| #[trigger] base.contains(x) implies w.0.contains(x)
                || w.1.contains(x) by {
                if x == b0 {
                } else {
                    assert(rest.contains(x));
                    assert(p.0.contains(x) || p.1.contains(x));
                    if p.0.contains(x) {
                        assert(w.0.contains(x));
                    }
                }
            }
            assert forall|x: usize| !(#[trigger] w.0.contains(x) && w.1.contains(x)) by {
                if w.0.contains(x) && w.1.contains(x) {
                    assert(p.1.contains(x));
                    assert(rest.contains(x));
                    assert(x > b0);
                    assert(x == b0 || p.0.contains(x));
                    assert(p.0.contains(x));
                }
            }
        } else {
            lemma_split_ids(rest, sel, room);
            let p = split_ids(rest, sel, room);
            let w = split_ids(base, sel, room);
            assert(w.1 == seq![b0] + p.1);
            assert(forall|x: usize| #[trigger] w.1.contains(x) ==> x == b0 || p.1.contains(x)) by {
                assert forall|x: usize| #[trigger] w.1.contains(x) implies x == b0 || p.1.contains(
                    x,
                ) by {
                    let k = choose|k: int| 0 <= k < w.1.len() && w.1[k] == x;
                    if k > 0 {
                        assert(p.1[k - 1] == x);
                    }
                }
            }
            assert(forall|x: usize| p.1.contains(x) ==> #[trigger] w.1.contains(x)) by {
                assert(forall|k: int| 0 <= k < p.1.len() ==> w.1[k + 1] == p.1[k]);
            }
            assert(w.1.contains(b0)) by {
                assert(w.1[0] == b0);
            }
            assert(sorted_strict_ids(w.1)) by {
                assert forall|a: int, b: int| 0 <= a < b < w.1.len() implies w.1[a] < w.1[b] by {
                    if a == 0 {
                        assert(w.1[b] == p.1[b - 1]);
                        assert(p.1.contains(p.1[b - 1]));
                        assert(rest.contains(p.1[b - 1]));
                    } else {
                        assert(w.1[a] == p.1[a - 1] && w.1[b] == p.1[b - 1]);
                    }
                }
            }
            assert forall|x: usize| #[trigger] w.0.contains(x) implies base.contains(x)
                && sel.contains(x) by {
                assert(p.0.contains(x));
                assert(rest.contains(x));
            }
            assert forall|x: usize| #[trigger] w.1.contains(x) implies base.contains(x) by {
                if x == b0 {
                    assert(base[0] == b0);
                } else {
                    assert(p.1.contains(x));
                    assert(rest.contains(x));
                }
            }
            assert forall|x: usize| #[trigger] base.contains(x) implies w.0.contains(x)
                || w.1.contains(x) by {
                if x == b0 {
                } else {
                    assert(rest.contains(x));
                    assert(p.0.contains(x) || p.1.contains(x));
                    if p.1.contains(x) {
                        assert(w.1.contains(x));
                    }
                }
            }
            assert forall|x: usize| !(#[trigger] w.0.contains(x) && w.1.contains(x)) by {
                if w.0.contains(x) && w.1.contains(x) {
                    assert(p.0.contains(x));
                    assert(rest.contains(x));
                    assert(x > b0);
                    assert(x == b0 || p.1.contains(x));
                    assert(p.1.contains(x));
                }
            }
        }
    }
}

/// Strictly ascending ids.
pub open spec fn sorted_strict_ids(ids: Seq<usize>) -> bool {
    forall|a: int, b: int| 0 <= a < b < ids.len() ==> ids[a] < ids[b]
}

/// The metas the base records of a store yield, as a relation from line `i`
/// on: ids ascend through the base, every kept line parses, and each meta
/// carries exactly what [`meta_spec`] names.
pub open spec fn collect_rel(
    lines: Seq<Seq<char>>,
    base: Seq<usize>,
    i: nat,
    fm: FieldMap,
    strategy: Seq<char>,
    ms: Seq<RecordMeta>,
) -> bool
    decreases lines.len() - i,
{
    if i >= lines.len() {
        ms.len() == 0
    } else if !base.contains(i as usize) {
        collect_rel(lines, base, i + 1, fm, strategy, ms)
    } else {
        match spec_parse_json(lines[i as int]) {
            None => false,
            Some(rec) => ms.len() > 0 && ms[0].id == i as usize && (
            ov(ms[0].category),
            ms[0].score,
            ms[0].signature,
            ) == meta_spec(rec, i as usize, fm, strategy) && collect_rel(
                lines,
                base,
                i + 1,
                fm,
                strategy,
                ms.drop_first(),
            ),
        }
    }
}

/// A base line past `i` fails to parse.
pub open spec fn collect_fails(lines: Seq<Seq<char>>, base: Seq<usize>, i: nat) -> bool
    decreases lines.len() - i,
{
    if i >= lines.len() {
        false
    } else if base.contains(i as usize) && spec_parse_json(lines[i as int]) is None {
        true
    } else {
        collect_fails(lines, base, i + 1)
    }
}

/// The ids 0 to `n`.
pub open spec fn all_ids(n: nat) -> Seq<usize> {
    Seq::new(n, |i: int| i as usize)
}

/// The base ids: the given list, else every record.
fn base_vec(base_ids: Option<&Vec<usize>>, n: usize) -> (r: Vec<usize>)
    ensures
        match base_ids {
            Some(b) => r@ == b@,
            None => r@ == all_ids(n as nat),
        },
{
    match base_ids {
        Some(b) => {
            let mut out: Vec<usize> = Vec::new();
            let bn = b.len();
            let mut i: usize = 0;
            while i < bn
                invariant
                    i <= bn,
                    bn == b@.len(),
                    out@ =~= b@.subrange(0, i as int),
                decreases bn - i,
            {
                out.push(b[i]);
                proof {
                    assert(out@ =~= b@.subrange(0, i as int + 1));
                }
                i = i + 1;
            }
            proof {
                assert(out@ =~= b@);
            }
            out
        },
        None => {
            let mut out: Vec<usize> = Vec::new();
            let mut i: usize = 0;
            while i < n
                invariant
                    i <= n,
                    out@ =~= all_ids(n as nat).subrange(0, i as int),
                decreases n - i,
            {
                out.push(i);
                proof {
                    assert(out@ =~= all_ids(n as nat).subrange(0, i as int + 1));
                }
                i = i + 1;
            }
            proof {
                assert(out@ =~= all_ids(n as nat));
            }
            out
        },
    }
}

/// Some meta list collects from the store's base lines and splits the base
/// into exactly these two sides.
pub open spec fn preview_matches(
    lines: Seq<Seq<char>>,
    base: Seq<usize>,
    fm: FieldMap,
    cfg: DistillConfig,
    sel: Seq<usize>,
    rem: Seq<usize>,
) -> bool {
    exists|ms: Seq<RecordMeta>|
        {
            &&& #[trigger] collect_rel(lines, base, 0, fm, cfg.strategy@, ms)
            &&& ({
                let room: nat = if ms.len() == 0 {
                    0
                } else {
                    target_of(cfg, ms.len() as nat)
                };
                let p = split_ids(base, select_spec(ms, cfg), room);
                sel == p.0 && rem == p.1 && sel.len() <= room
            })
        }
}

/// A distillation preview over a store's lines: collect the base records'
/// metas, run the selection, and split the base into the kept and removed
/// sides. The kept side lists selected base ids ascending, capped at the
/// target; the removed side lists the rest of the base ascending; together
/// they partition the base, and they never overlap.
#[verifier::loop_isolation(false)]
#[verifier::rlimit(100)]
pub fn preview_distillation(
    lines: &Vec<String>,
    base_ids: Option<&Vec<usize>>,
    config: &DistillConfig,
    field_map: &FieldMap,
) -> (r: Result<(Vec<usize>, Vec<usize>, DistillSummary), DataError>)
    requires
        match base_ids {
            Some(b) => sorted_strict_ids(b@),
            None => true,
        },
    ensures
        ({
            let base = match base_ids {
                Some(b) => b@,
                None => all_ids(lines@.len() as nat),
            };
            match r {
                Ok(t) => {
                    &&& !collect_fails(lines.deep_view(), base, 0)
                    &&& preview_matches(lines.deep_view(), base, *field_map, *config, t.0@, t.1@)
                    &&& forall|x: usize| t.0@.contains(x) ==> base.contains(x)
                    &&& forall|x: usize| t.1@.contains(x) ==> base.contains(x)
                    &&& forall|x: usize|
                        base.contains(x) ==> t.0@.contains(x) || t.1@.contains(x)
                    &&& forall|x: usize| !(t.0@.contains(x) && t.1@.contains(x))
                    &&& sorted_strict_ids(t.0@)
                    &&& sorted_strict_ids(t.1@)
                    &&& t.0@.len() + t.1@.len() == base.len()
                    &&& t.2.total_count == base.len()
                    &&& t.2.selected_count == t.0@.len()
                    &&& t.2.removed_count == t.1@.len()
                },
                Err(e) => e is Parse && collect_fails(lines.deep_view(), base, 0),
            }
        }),
{
    let n = lines.len();
    let base = base_vec(base_ids, n);
    let ghost bseq = base@;
    proof {
        assert(sorted_strict_ids(bseq)) by {
            match base_ids {
                Some(b) => {},
                None => {
                    assert(forall|a: int, b: int|
                        0 <= a < b < all_ids(n as nat).len() ==> all_ids(n as nat)[a] < all_ids(
                            n as nat,
                        )[b]);
                },
            }
        }
    }
    let ghost ldv = lines.deep_view();
    let mut metas: Vec<RecordMeta> = Vec::new();
    let mut i: usize = 0;
    while i < n
        invariant
            i <= n,
            n == lines@.len(),
            forall|rest: Seq<RecordMeta>|
                collect_rel(ldv, bseq, i as nat, *field_map, config.strategy@, rest)
                    ==> #[trigger] collect_rel(
                    ldv,
                    bseq,
                    0,
                    *field_map,
                    config.strategy@,
                    metas@ + rest,
                ),
            collect_fails(ldv, bseq, 0) == collect_fails(ldv, bseq, i as nat),
        decreases n - i,
    {
        if contains_usize(&base, i) {
            let rec = match crate::json::parse_json(lines[i].as_str()) {
                Some(v) => v,
                None => {
                    proof {
                        assert(ldv[i as int] == lines@[i as int]@);
                        assert(collect_fails(ldv, bseq, i as nat));
                    }
                    return Err(DataError::Parse);
                },
            };
            let m = build_record_meta(&rec, i, field_map, config.strategy.as_str());
            let ghost metas_before = metas@;
            metas.push(m);
            proof {
                assert(ldv[i as int] == lines@[i as int]@);
                assert forall|rest: Seq<RecordMeta>|
                    collect_rel(ldv, bseq, i as nat + 1, *field_map, config.strategy@, rest)
                        implies #[trigger] collect_rel(
                    ldv,
                    bseq,
                    0,
                    *field_map,
                    config.strategy@,
                    metas@ + rest,
                ) by {
                    let withm = seq![m] + rest;
                    assert(withm[0] == m);
                    assert(withm.drop_first() =~= rest);
                    assert(collect_rel(ldv, bseq, i as nat, *field_map, config.strategy@, withm));
                    assert(metas_before + withm =~= metas@ + rest);
                }
            }
            i = i + 1;
        } else {
            proof {
                assert(!bseq.contains(i as usize));
            }
            i = i + 1;
        }
    }
    proof {
        assert(collect_rel(ldv, bseq, n as nat, *field_map, config.strategy@, Seq::empty()));
        assert(metas@ + Seq::<RecordMeta>::empty() =~= metas@);
        assert(collect_rel(ldv, bseq, 0, *field_map, config.strategy@, metas@));
        assert(!collect_fails(ldv, bseq, n as nat));
    }
    let selected_raw = select_records(&metas, config);
    let room: usize = if metas.len() == 0 {
        0
    } else {
        target_size(config, metas.len())
    };
    // split the base around the selection
    let mut keep: Vec<usize> = Vec::new();
    let mut removed: Vec<usize> = Vec::new();
    let bn = base.len();
    let mut i: usize = 0;
    proof {
        assert(bseq.skip(0) =~= bseq);
    }
    while i < bn
        invariant
            i <= bn,
            bn == bseq.len(),
            base@ == bseq,
            keep@.len() <= room,
            ({
                let full = split_ids(bseq, selected_raw@, room as nat);
                let sub = split_ids(
                    bseq.skip(i as int),
                    selected_raw@,
                    (room - keep@.len()) as nat,
                );
                full.0 == keep@ + sub.0 && full.1 == removed@ + sub.1
            }),
        decreases bn - i,
    {
        let ghost sub_before = split_ids(
            bseq.skip(i as int),
            selected_raw@,
            (room - keep@.len()) as nat,
        );
        proof {
            assert(bseq.skip(i as int)[0] == bseq[i as int]);
            assert(bseq.skip(i as int).drop_first() =~= bseq.skip(i as int + 1));
        }
        let b = base[i];
        if contains_usize(&selected_raw, b) && keep.len() < room {
            let ghost keep_before = keep@;
            keep.push(b);
            proof {
                let subn = split_ids(
                    bseq.skip(i as int + 1),
                    selected_raw@,
                    (room - keep@.len()) as nat,
                );
                assert(sub_before.0 == seq![bseq[i as int]] + subn.0);
                assert(keep_before + (seq![bseq[i as int]] + subn.0) =~= keep@ + subn.0);
            }
        } else {
            let ghost removed_before = removed@;
            removed.push(b);
            proof {
                let subn = split_ids(
                    bseq.skip(i as int + 1),
                    selected_raw@,
                    (room - keep@.len()) as nat,
                );
                assert(sub_before.1 == seq![bseq[i as int]] + subn.1);
                assert(removed_before + (seq![bseq[i as int]] + subn.1) =~= removed@ + subn.1);
            }
        }
        i = i + 1;
    }
    proof {
        assert(bseq.skip(bn as int) =~= Seq::<usize>::empty());
        let full = split_ids(bseq, selected_raw@, room as nat);
        assert(keep@ + Seq::<usize>::empty() =~= keep@);
        assert(removed@ + Seq::<usize>::empty() =~= removed@);
        assert(full.0 == keep@ && full.1 == removed@);
        lemma_split_ids(bseq, selected_raw@, room as nat);
    }
    let summary = DistillSummary {
        total_count: base.len(),
        selected_count: keep.len(),
        removed_count: removed.len(),
    };
    proof {
        let ms = metas@;
        let room_w: nat = if ms.len() == 0 {
            0
        } else {
            target_of(*config, ms.len() as nat)
        };
        assert(room as nat == room_w);
        assert(selected_raw@ == select_spec(ms, *config));
        let p = split_ids(bseq, select_spec(ms, *config), room_w);
        assert(keep@ == p.0 && removed@ == p.1);
        assert(collect_rel(ldv, bseq, 0, *field_map, config.strategy@, ms) && ({
            let room2 = if ms.len() == 0 {
                0
            } else {
                target_of(*config, ms.len() as nat)
            };
            let p2 = split_ids(bseq, select_spec(ms, *config), room2);
            keep@ == p2.0 && removed@ == p2.1
        }));
        let basespec = match base_ids {
            Some(b) => b@,
            None => all_ids(lines@.len() as nat),
        };
        assert(bseq == basespec);
        assert(ldv == lines.deep_view());
        assert(!collect_fails(lines.deep_view(), basespec, 0));
        assert(preview_matches(
            lines.deep_view(),
            basespec,
            *field_map,
            *config,
            keep@,
            removed@,
        )) by {
            assert(collect_rel(lines.deep_view(), basespec, 0, *field_map, config.strategy@, ms)
                && ({
                let room2: nat = if ms.len() == 0 {
                    0
                } else {
                    target_of(*config, ms.len() as nat)
                };
                let p2 = split_ids(basespec, select_spec(ms, *config), room2);
                keep@ == p2.0 && removed@ == p2.1
            }));
        }
        assert(forall|x: usize| keep@.contains(x) ==> basespec.contains(x));
        assert(forall|x: usize| removed@.contains(x) ==> basespec.contains(x));
        assert(forall|x: usize| basespec.contains(x) ==> keep@.contains(x) || removed@.contains(x));
        assert(forall|x: usize| !(keep@.contains(x) && removed@.contains(x)));
        assert(sorted_strict_ids(keep@));
        assert(sorted_strict_ids(removed@));
        assert(keep@.len() + removed@.len() == basespec.len());
        assert(summary.total_count == basespec.len());
        assert(summary.selected_count == keep@.len());
        assert(summary.removed_count == removed@.len());
    }
    Ok((keep, removed, summary))
}


/// Two metas carrying the same observable data: same id, same category
/// text, same score, same fingerprint.
pub open spec fn meta_eq(a: RecordMeta, b: RecordMeta) -> bool {
    &&& a.id == b.id
    &&& ov(a.category) == ov(b.category)
    &&& a.score == b.score
    &&& a.signature == b.signature
}

/// Two meta lists elementwise alike.
pub open spec fn metas_eq(x: Seq<RecordMeta>, y: Seq<RecordMeta>) -> bool {
    &&& x.len() == y.len()
    &&& forall|i: int| 0 <= i < x.len() ==> #[trigger] meta_eq(x[i], y[i])
}

/// Collecting metas from the same store and base pins them: any two
/// related lists are alike.
pub proof fn lemma_collect_rel_eq(
    lines: Seq<Seq<char>>,
    base: Seq<usize>,
    i: nat,
    fm: FieldMap,
    strategy: Seq<char>,
    ms1: Seq<RecordMeta>,
    ms2: Seq<RecordMeta>,
)
    requires
        collect_rel(lines, base, i, fm, strategy, ms1),
        collect_rel(lines, base, i, fm, strategy, ms2),
    ensures
        metas_eq(ms1, ms2),
    decreases lines.len() - i,
{
    if i >= lines.len() {
        assert(metas_eq(ms1, ms2));
    } else if !base.contains(i as usize) {
        lemma_collect_rel_eq(lines, base, i + 1, fm, strategy, ms1, ms2);
    } else {
        match spec_parse_json(lines[i as int]) {
            None => {},
            Some(rec) => {
                lemma_collect_rel_eq(
                    lines,
                    base,
                    i + 1,
                    fm,
                    strategy,
                    ms1.drop_first(),
                    ms2.drop_first(),
                );
                assert(meta_eq(ms1[0], ms2[0]));
                assert forall|k: int| 0 <= k < ms1.len() implies #[trigger] meta_eq(
                    ms1[k],
                    ms2[k],
                ) by {
                    if k > 0 {
                        assert(ms1.drop_first()[k - 1] == ms1[k]);
                        assert(ms2.drop_first()[k - 1] == ms2[k]);
                        assert(meta_eq(ms1.drop_first()[k - 1], ms2.drop_first()[k - 1]));
                    }
                }
            },
        }
    }
}

proof fn lemma_insert_sorted_eq(x: Seq<RecordMeta>, y: Seq<RecordMeta>, a: RecordMeta, b: RecordMeta)
    requires
        metas_eq(x, y),
        meta_eq(a, b),
    ensures
        metas_eq(insert_sorted(x, a), insert_sorted(y, b)),
    decreases x.len(),
{
    if x.len() == 0 {
        assert(metas_eq(insert_sorted(x, a), insert_sorted(y, b)));
    } else {
        assert(meta_eq(x[0], y[0]));
        assert(x[0].leq_spec(a) == y[0].leq_spec(b));
        if x[0].leq_spec(a) {
            assert(metas_eq(x.drop_first(), y.drop_first())) by {
                assert forall|k: int| 0 <= k < x.drop_first().len() implies #[trigger] meta_eq(
                    x.drop_first()[k],
                    y.drop_first()[k],
                ) by {
                    assert(x.drop_first()[k] == x[k + 1] && y.drop_first()[k] == y[k + 1]);
                    assert(meta_eq(x[k + 1], y[k + 1]));
                }
            }
            lemma_insert_sorted_eq(x.drop_first(), y.drop_first(), a, b);
            let tx = insert_sorted(x.drop_first(), a);
            let ty = insert_sorted(y.drop_first(), b);
            assert forall|k: int| 0 <= k < (seq![x[0]] + tx).len() implies #[trigger] meta_eq(
                (seq![x[0]] + tx)[k],
                (seq![y[0]] + ty)[k],
            ) by {
                if k > 0 {
                    assert((seq![x[0]] + tx)[k] == tx[k - 1]);
                    assert((seq![y[0]] + ty)[k] == ty[k - 1]);
                    assert(meta_eq(tx[k - 1], ty[k - 1]));
                }
            }
        } else {
            assert forall|k: int| 0 <= k < (seq![a] + x).len() implies #[trigger] meta_eq(
                (seq![a] + x)[k],
                (seq![b] + y)[k],
            ) by {
                if k > 0 {
                    assert((seq![a] + x)[k] == x[k - 1]);
                    assert((seq![b] + y)[k] == y[k - 1]);
                    assert(meta_eq(x[k - 1], y[k - 1]));
                }
            }
        }
    }
}

proof fn lemma_sort_elems_eq(x: Seq<RecordMeta>, y: Seq<RecordMeta>)
    requires
        metas_eq(x, y),
    ensures
        metas_eq(sort_elems(x), sort_elems(y)),
    decreases x.len(),
{
    if x.len() > 0 {
        assert(metas_eq(x.drop_last(), y.drop_last())) by {
            assert forall|k: int| 0 <= k < x.drop_last().len() implies #[trigger] meta_eq(
                x.drop_last()[k],
                y.drop_last()[k],
            ) by {
                assert(x.drop_last()[k] == x[k] && y.drop_last()[k] == y[k]);
                assert(meta_eq(x[k], y[k]));
            }
        }
        lemma_sort_elems_eq(x.drop_last(), y.drop_last());
        assert(meta_eq(x.last(), y.last()));
        lemma_insert_sorted_eq(sort_elems(x.drop_last()), sort_elems(y.drop_last()), x.last(), y.last());
    }
}

proof fn lemma_ids_of_eq(x: Seq<RecordMeta>, y: Seq<RecordMeta>)
    requires
        metas_eq(x, y),
    ensures
        ids_of(x) == ids_of(y),
{
    assert forall|k: int| 0 <= k < x.len() implies ids_of(x)[k] == ids_of(y)[k] by {
        assert(meta_eq(x[k], y[k]));
    }
    assert(ids_of(x) =~= ids_of(y));
}

proof fn lemma_shuffle_eq(x: Seq<RecordMeta>, y: Seq<RecordMeta>, st: u64)
    requires
        metas_eq(x, y),
    ensures
        metas_eq(shuffle_spec(x, st).0, shuffle_spec(y, st).0),
        shuffle_spec(x, st).1 == shuffle_spec(y, st).1,
    decreases x.len(),
{
    if x.len() > 0 {
        let st2 = crate::rng::next_state(st);
        let r = crate::rng::rng_value(st2);
        let j = (r as int) % (x.len() as int);
        assert(metas_eq(x.remove(j), y.remove(j))) by {
            assert forall|k: int| 0 <= k < x.remove(j).len() implies #[trigger] meta_eq(
                x.remove(j)[k],
                y.remove(j)[k],
            ) by {
                if k < j {
                    assert(x.remove(j)[k] == x[k] && y.remove(j)[k] == y[k]);
                    assert(meta_eq(x[k], y[k]));
                } else {
                    assert(x.remove(j)[k] == x[k + 1] && y.remove(j)[k] == y[k + 1]);
                    assert(meta_eq(x[k + 1], y[k + 1]));
                }
            }
        }
        lemma_shuffle_eq(x.remove(j), y.remove(j), st2);
        let px = shuffle_spec(x.remove(j), st2);
        let py = shuffle_spec(y.remove(j), st2);
        assert(meta_eq(x[j], y[j]));
        assert forall|k: int| 0 <= k < (seq![x[j]] + px.0).len() implies #[trigger] meta_eq(
            (seq![x[j]] + px.0)[k],
            (seq![y[j]] + py.0)[k],
        ) by {
            if k > 0 {
                assert((seq![x[j]] + px.0)[k] == px.0[k - 1]);
                assert((seq![y[j]] + py.0)[k] == py.0[k - 1]);
                assert(meta_eq(px.0[k - 1], py.0[k - 1]));
            }
        }
    }
}

/// Two bucket lists elementwise alike: same keys, alike contents.
pub open spec fn bseq_eq(p: Seq<(u16, Seq<RecordMeta>)>, q: Seq<(u16, Seq<RecordMeta>)>) -> bool {
    &&& p.len() == q.len()
    &&& forall|i: int|
        0 <= i < p.len() ==> (#[trigger] p[i]).0 == q[i].0 && metas_eq(p[i].1, q[i].1)
}

proof fn lemma_bseq_drop_first(p: Seq<(u16, Seq<RecordMeta>)>, q: Seq<(u16, Seq<RecordMeta>)>)
    requires
        bseq_eq(p, q),
        p.len() > 0,
    ensures
        bseq_eq(p.drop_first(), q.drop_first()),
{
    assert forall|k: int|
        0 <= k < p.drop_first().len() implies (#[trigger] p.drop_first()[k]).0
        == q.drop_first()[k].0 && metas_eq(p.drop_first()[k].1, q.drop_first()[k].1) by {
        assert(p.drop_first()[k] == p[k + 1] && q.drop_first()[k] == q[k + 1]);
        assert(p[k + 1].0 == q[k + 1].0 && metas_eq(p[k + 1].1, q[k + 1].1));
    }
}

proof fn lemma_mbucket_push_eq(
    p: Seq<(u16, Seq<RecordMeta>)>,
    q: Seq<(u16, Seq<RecordMeta>)>,
    k: u16,
    a: RecordMeta,
    b: RecordMeta,
)
    requires
        bseq_eq(p, q),
        meta_eq(a, b),
    ensures
        bseq_eq(mbucket_push(p, k, a), mbucket_push(q, k, b)),
    decreases p.len(),
{
    if p.len() == 0 {
        assert(metas_eq(seq![a], seq![b]));
        assert(bseq_eq(mbucket_push(p, k, a), mbucket_push(q, k, b)));
    } else {
        assert(p[0].0 == q[0].0 && metas_eq(p[0].1, q[0].1));
        if p[0].0 == k {
            assert(metas_eq(p[0].1.push(a), q[0].1.push(b))) by {
                assert forall|w: int| 0 <= w < p[0].1.push(a).len() implies #[trigger] meta_eq(
                    p[0].1.push(a)[w],
                    q[0].1.push(b)[w],
                ) by {
                    if w < p[0].1.len() {
                        assert(meta_eq(p[0].1[w], q[0].1[w]));
                    }
                }
            }
            let rx = seq![(p[0].0, p[0].1.push(a))] + p.drop_first();
            let ry = seq![(q[0].0, q[0].1.push(b))] + q.drop_first();
            assert forall|w: int|
                0 <= w < rx.len() implies (#[trigger] rx[w]).0 == ry[w].0 && metas_eq(
                rx[w].1,
                ry[w].1,
            ) by {
                if w > 0 {
                    assert(rx[w] == p.drop_first()[w - 1] && ry[w] == q.drop_first()[w - 1]);
                    assert(p.drop_first()[w - 1] == p[w] && q.drop_first()[w - 1] == q[w]);
                    assert(p[w].0 == q[w].0 && metas_eq(p[w].1, q[w].1));
                }
            }
        } else {
            lemma_bseq_drop_first(p, q);
            lemma_mbucket_push_eq(p.drop_first(), q.drop_first(), k, a, b);
            let tx = mbucket_push(p.drop_first(), k, a);
            let ty = mbucket_push(q.drop_first(), k, b);
            let rx = seq![p[0]] + tx;
            let ry = seq![q[0]] + ty;
            assert forall|w: int|
                0 <= w < rx.len() implies (#[trigger] rx[w]).0 == ry[w].0 && metas_eq(
                rx[w].1,
                ry[w].1,
            ) by {
                if w > 0 {
                    assert(rx[w] == tx[w - 1] && ry[w] == ty[w - 1]);
                    assert(tx[w - 1].0 == ty[w - 1].0 && metas_eq(tx[w - 1].1, ty[w - 1].1));
                }
            }
        }
    }
}

proof fn lemma_mbuckets_eq(x: Seq<RecordMeta>, y: Seq<RecordMeta>)
    requires
        metas_eq(x, y),
    ensures
        bseq_eq(mbuckets(x), mbuckets(y)),
    decreases x.len(),
{
    if x.len() == 0 {
        assert(bseq_eq(mbuckets(x), mbuckets(y)));
    } else {
        assert(metas_eq(x.drop_last(), y.drop_last())) by {
            assert forall|k: int| 0 <= k < x.drop_last().len() implies #[trigger] meta_eq(
                x.drop_last()[k],
                y.drop_last()[k],
            ) by {
                assert(x.drop_last()[k] == x[k] && y.drop_last()[k] == y[k]);
                assert(meta_eq(x[k], y[k]));
            }
        }
        lemma_mbuckets_eq(x.drop_last(), y.drop_last());
        assert(meta_eq(x.last(), y.last()));
        assert(bucket_key(x.last().signature) == bucket_key(y.last().signature));
        lemma_mbucket_push_eq(
            mbuckets(x.drop_last()),
            mbuckets(y.drop_last()),
            bucket_key(x.last().signature),
            x.last(),
            y.last(),
        );
    }
}

proof fn lemma_mbucket_get_eq(
    p: Seq<(u16, Seq<RecordMeta>)>,
    q: Seq<(u16, Seq<RecordMeta>)>,
    k: u16,
)
    requires
        bseq_eq(p, q),
    ensures
        metas_eq(mbucket_get(p, k), mbucket_get(q, k)),
    decreases p.len(),
{
    if p.len() == 0 {
        assert(metas_eq(mbucket_get(p, k), mbucket_get(q, k)));
    } else if p[0].0 == k {
        assert(metas_eq(p[0].1, q[0].1));
    } else {
        lemma_bseq_drop_first(p, q);
        lemma_mbucket_get_eq(p.drop_first(), q.drop_first(), k);
    }
}

proof fn lemma_mbucket_set_eq(
    p: Seq<(u16, Seq<RecordMeta>)>,
    q: Seq<(u16, Seq<RecordMeta>)>,
    k: u16,
    lx: Seq<RecordMeta>,
    ly: Seq<RecordMeta>,
)
    requires
        bseq_eq(p, q),
        metas_eq(lx, ly),
    ensures
        bseq_eq(mbucket_set(p, k, lx), mbucket_set(q, k, ly)),
    decreases p.len(),
{
    if p.len() == 0 {
    } else if p[0].0 == k {
        let rx = seq![(p[0].0, lx)] + p.drop_first();
        let ry = seq![(q[0].0, ly)] + q.drop_first();
        assert forall|w: int|
            0 <= w < rx.len() implies (#[trigger] rx[w]).0 == ry[w].0 && metas_eq(
            rx[w].1,
            ry[w].1,
        ) by {
            if w > 0 {
                assert(rx[w] == p[w] && ry[w] == q[w]);
                assert(p[w].0 == q[w].0 && metas_eq(p[w].1, q[w].1));
            }
        }
    } else {
        lemma_bseq_drop_first(p, q);
        lemma_mbucket_set_eq(p.drop_first(), q.drop_first(), k, lx, ly);
        let tx = mbucket_set(p.drop_first(), k, lx);
        let ty = mbucket_set(q.drop_first(), k, ly);
        let rx = seq![p[0]] + tx;
        let ry = seq![q[0]] + ty;
        assert forall|w: int|
            0 <= w < rx.len() implies (#[trigger] rx[w]).0 == ry[w].0 && metas_eq(
            rx[w].1,
            ry[w].1,
        ) by {
            if w > 0 {
                assert(rx[w] == tx[w - 1] && ry[w] == ty[w - 1]);
                assert(tx[w - 1].0 == ty[w - 1].0 && metas_eq(tx[w - 1].1, ty[w - 1].1));
            }
        }
    }
}

proof fn lemma_prep_buckets_eq(
    p: Seq<(u16, Seq<RecordMeta>)>,
    q: Seq<(u16, Seq<RecordMeta>)>,
    st: u64,
)
    requires
        bseq_eq(p, q),
    ensures
        bseq_eq(prep_buckets(p, st).0, prep_buckets(q, st).0),
        prep_buckets(p, st).1 == prep_buckets(q, st).1,
    decreases p.len(),
{
    if p.len() > 0 {
        assert(p[0].0 == q[0].0 && metas_eq(p[0].1, q[0].1));
        lemma_sort_elems_eq(p[0].1, q[0].1);
        lemma_shuffle_eq(sort_elems(p[0].1), sort_elems(q[0].1), st);
        let sx = shuffle_spec(sort_elems(p[0].1), st);
        let sy = shuffle_spec(sort_elems(q[0].1), st);
        lemma_bseq_drop_first(p, q);
        lemma_prep_buckets_eq(p.drop_first(), q.drop_first(), sx.1);
        let rx = prep_buckets(p.drop_first(), sx.1);
        let ry = prep_buckets(q.drop_first(), sy.1);
        let cx = seq![(p[0].0, sx.0)] + rx.0;
        let cy = seq![(q[0].0, sy.0)] + ry.0;
        assert forall|w: int|
            0 <= w < cx.len() implies (#[trigger] cx[w]).0 == cy[w].0 && metas_eq(
            cx[w].1,
            cy[w].1,
        ) by {
            if w > 0 {
                assert(cx[w] == rx.0[w - 1] && cy[w] == ry.0[w - 1]);
                assert(rx.0[w - 1].0 == ry.0[w - 1].0 && metas_eq(rx.0[w - 1].1, ry.0[w - 1].1));
            }
        }
    }
}

proof fn lemma_rr_pass_eq(
    p: Seq<(u16, Seq<RecordMeta>)>,
    q: Seq<(u16, Seq<RecordMeta>)>,
    keys: Seq<u16>,
    ki: int,
    acc: Seq<usize>,
    target: nat,
)
    requires
        bseq_eq(p, q),
    ensures
        bseq_eq(rr_pass(p, keys, ki, acc, target).0, rr_pass(q, keys, ki, acc, target).0),
        rr_pass(p, keys, ki, acc, target).1 == rr_pass(q, keys, ki, acc, target).1,
        rr_pass(p, keys, ki, acc, target).2 == rr_pass(q, keys, ki, acc, target).2,
    decreases keys.len() - ki,
{
    if ki >= keys.len() || acc.len() >= target {
    } else {
        lemma_mbucket_get_eq(p, q, keys[ki]);
        let lx = mbucket_get(p, keys[ki]);
        let ly = mbucket_get(q, keys[ki]);
        if lx.len() > 0 {
            assert(meta_eq(lx.last(), ly.last()));
            assert(metas_eq(lx.drop_last(), ly.drop_last())) by {
                assert forall|k: int| 0 <= k < lx.drop_last().len() implies #[trigger] meta_eq(
                    lx.drop_last()[k],
                    ly.drop_last()[k],
                ) by {
                    assert(lx.drop_last()[k] == lx[k] && ly.drop_last()[k] == ly[k]);
                    assert(meta_eq(lx[k], ly[k]));
                }
            }
            lemma_mbucket_set_eq(p, q, keys[ki], lx.drop_last(), ly.drop_last());
            lemma_rr_pass_eq(
                mbucket_set(p, keys[ki], lx.drop_last()),
                mbucket_set(q, keys[ki], ly.drop_last()),
                keys,
                ki + 1,
                acc.push(lx.last().id),
                target,
            );
        } else {
            lemma_rr_pass_eq(p, q, keys, ki + 1, acc, target);
        }
    }
}

proof fn lemma_rr_all_eq(
    p: Seq<(u16, Seq<RecordMeta>)>,
    q: Seq<(u16, Seq<RecordMeta>)>,
    keys: Seq<u16>,
    acc: Seq<usize>,
    target: nat,
    fuel: nat,
)
    requires
        bseq_eq(p, q),
    ensures
        rr_all(p, keys, acc, target, fuel) == rr_all(q, keys, acc, target, fuel),
    decreases fuel,
{
    if fuel > 0 {
        lemma_rr_pass_eq(p, q, keys, 0, acc, target);
        let px = rr_pass(p, keys, 0, acc, target);
        let py = rr_pass(q, keys, 0, acc, target);
        if !px.2 || px.1.len() >= target {
        } else {
            lemma_rr_all_eq(px.0, py.0, keys, px.1, target, (fuel - 1) as nat);
        }
    }
}

proof fn lemma_diversity_eq(x: Seq<RecordMeta>, y: Seq<RecordMeta>, target: nat, st: u64)
    requires
        metas_eq(x, y),
    ensures
        diversity_ids(x, target, st) == diversity_ids(y, target, st),
{
    lemma_mbuckets_eq(x, y);
    lemma_prep_buckets_eq(mbuckets(x), mbuckets(y), st);
    assert(keys_of(mbuckets(x)) =~= keys_of(mbuckets(y)));
    lemma_rr_all_eq(
        prep_buckets(mbuckets(x), st).0,
        prep_buckets(mbuckets(y), st).0,
        crate::rng::shuffle_spec(keys_of(mbuckets(x)), prep_buckets(mbuckets(x), st).1).0,
        Seq::empty(),
        target,
        (x.len() + 1) as nat,
    );
}

proof fn lemma_strategy_ids_eq(x: Seq<RecordMeta>, y: Seq<RecordMeta>, target: nat, cfg: DistillConfig)
    requires
        metas_eq(x, y),
    ensures
        strategy_ids(x, target, cfg) == strategy_ids(y, target, cfg),
{
    let seed = match cfg.random_seed {
        Some(s) => s,
        None => 42,
    };
    if cfg.strategy@ == "importance"@ {
        lemma_sort_elems_eq(x, y);
        lemma_ids_of_eq(sort_elems(x), sort_elems(y));
    } else if cfg.strategy@ == "random"@ {
        lemma_ids_of_eq(x, y);
    } else {
        lemma_diversity_eq(x, y, target, seed);
    }
}

proof fn lemma_apply_strategy_eq(x: Seq<RecordMeta>, y: Seq<RecordMeta>, target: nat, cfg: DistillConfig)
    requires
        metas_eq(x, y),
    ensures
        apply_strategy_spec(x, target, cfg) == apply_strategy_spec(y, target, cfg),
{
    lemma_strategy_ids_eq(x, y, target, cfg);
}

/// Two category partitions of alike meta lists: same category texts, alike
/// contents.
pub open spec fn cseq_eq(
    p: Seq<(Seq<char>, Seq<RecordMeta>)>,
    q: Seq<(Seq<char>, Seq<RecordMeta>)>,
) -> bool {
    &&& p.len() == q.len()
    &&& forall|i: int|
        0 <= i < p.len() ==> (#[trigger] p[i]).0 == q[i].0 && metas_eq(p[i].1, q[i].1)
}

proof fn lemma_cseq_drop_first(p: Seq<(Seq<char>, Seq<RecordMeta>)>, q: Seq<(Seq<char>, Seq<RecordMeta>)>)
    requires
        cseq_eq(p, q),
        p.len() > 0,
    ensures
        cseq_eq(p.drop_first(), q.drop_first()),
{
    assert forall|k: int|
        0 <= k < p.drop_first().len() implies (#[trigger] p.drop_first()[k]).0
        == q.drop_first()[k].0 && metas_eq(p.drop_first()[k].1, q.drop_first()[k].1) by {
        assert(p.drop_first()[k] == p[k + 1] && q.drop_first()[k] == q[k + 1]);
        assert(p[k + 1].0 == q[k + 1].0 && metas_eq(p[k + 1].1, q[k + 1].1));
    }
}

proof fn lemma_cbucket_push_eq(
    p: Seq<(Seq<char>, Seq<RecordMeta>)>,
    q: Seq<(Seq<char>, Seq<RecordMeta>)>,
    k: Seq<char>,
    a: RecordMeta,
    b: RecordMeta,
)
    requires
        cseq_eq(p, q),
        meta_eq(a, b),
    ensures
        cseq_eq(cbucket_push(p, k, a), cbucket_push(q, k, b)),
    decreases p.len(),
{
    if p.len() == 0 {
        assert(metas_eq(seq![a], seq![b]));
        assert(cseq_eq(cbucket_push(p, k, a), cbucket_push(q, k, b)));
    } else {
        assert(p[0].0 == q[0].0 && metas_eq(p[0].1, q[0].1));
        if p[0].0 == k {
            assert(metas_eq(p[0].1.push(a), q[0].1.push(b))) by {
                assert forall|w: int| 0 <= w < p[0].1.push(a).len() implies #[trigger] meta_eq(
                    p[0].1.push(a)[w],
                    q[0].1.push(b)[w],
                ) by {
                    if w < p[0].1.len() {
                        assert(meta_eq(p[0].1[w], q[0].1[w]));
                    }
                }
            }
            let rx = seq![(p[0].0, p[0].1.push(a))] + p.drop_first();
            let ry = seq![(q[0].0, q[0].1.push(b))] + q.drop_first();
            assert forall|w: int|
                0 <= w < rx.len() implies (#[trigger] rx[w]).0 == ry[w].0 && metas_eq(
                rx[w].1,
                ry[w].1,
            ) by {
                if w > 0 {
                    assert(rx[w] == p[w] && ry[w] == q[w]);
                    assert(p[w].0 == q[w].0 && metas_eq(p[w].1, q[w].1));
                }
            }
        } else {
            lemma_cseq_drop_first(p, q);
            lemma_cbucket_push_eq(p.drop_first(), q.drop_first(), k, a, b);
            let tx = cbucket_push(p.drop_first(), k, a);
            let ty = cbucket_push(q.drop_first(), k, b);
            let rx = seq![p[0]] + tx;
            let ry = seq![q[0]] + ty;
            assert forall|w: int|
                0 <= w < rx.len() implies (#[trigger] rx[w]).0 == ry[w].0 && metas_eq(
                rx[w].1,
                ry[w].1,
            ) by {
                if w > 0 {
                    assert(rx[w] == tx[w - 1] && ry[w] == ty[w - 1]);
                    assert(tx[w - 1].0 == ty[w - 1].0 && metas_eq(tx[w - 1].1, ty[w - 1].1));
                }
            }
        }
    }
}

proof fn lemma_cpartition_eq(x: Seq<RecordMeta>, y: Seq<RecordMeta>)
    requires
        metas_eq(x, y),
    ensures
        cseq_eq(cpartition(x), cpartition(y)),
    decreases x.len(),
{
    if x.len() == 0 {
        assert(cseq_eq(cpartition(x), cpartition(y)));
    } else {
        assert(metas_eq(x.drop_last(), y.drop_last())) by {
            assert forall|k: int| 0 <= k < x.drop_last().len() implies #[trigger] meta_eq(
                x.drop_last()[k],
                y.drop_last()[k],
            ) by {
                assert(x.drop_last()[k] == x[k] && y.drop_last()[k] == y[k]);
                assert(meta_eq(x[k], y[k]));
            }
        }
        lemma_cpartition_eq(x.drop_last(), y.drop_last());
        assert(meta_eq(x.last(), y.last()));
        assert(cat_key(x.last()) == cat_key(y.last()));
        lemma_cbucket_push_eq(
            cpartition(x.drop_last()),
            cpartition(y.drop_last()),
            cat_key(x.last()),
            x.last(),
            y.last(),
        );
    }
}

proof fn lemma_strat_concat_eq(
    allocs: Seq<CatAlloc>,
    p: Seq<(Seq<char>, Seq<RecordMeta>)>,
    q: Seq<(Seq<char>, Seq<RecordMeta>)>,
    cfg: DistillConfig,
)
    requires
        cseq_eq(p, q),
    ensures
        strat_concat(allocs, p, cfg) == strat_concat(allocs, q, cfg),
    decreases allocs.len(),
{
    if allocs.len() > 0 {
        let a = allocs[0];
        if a.part < p.len() {
            assert(metas_eq(p[a.part as int].1, q[a.part as int].1));
            let cap: nat = if (a.alloc as nat) < p[a.part as int].1.len() {
                a.alloc as nat
            } else {
                p[a.part as int].1.len() as nat
            };
            lemma_apply_strategy_eq(p[a.part as int].1, q[a.part as int].1, cap, cfg);
        }
        lemma_strat_concat_eq(allocs.drop_first(), p, q, cfg);
    }
}

/// The selection is a function of the metas' observable data: alike meta
/// lists select the same ids.
pub proof fn lemma_select_spec_eq(x: Seq<RecordMeta>, y: Seq<RecordMeta>, cfg: DistillConfig)
    requires
        metas_eq(x, y),
    ensures
        select_spec(x, cfg) == select_spec(y, cfg),
{
    if x.len() > 0 {
        let target = target_of(cfg, x.len() as nat);
        if cfg.preserve_category_balance {
            lemma_cpartition_eq(x, y);
            let px = cpartition(x);
            let py = cpartition(y);
            assert(allocs_of(px, x.len() as nat, target) =~= allocs_of(py, y.len() as nat, target));
            let a1 = sort_elems(allocs_of(px, x.len() as nat, target));
            let a2 = top_up(a1, sum_allocs(a1), 0, target);
            lemma_strat_concat_eq(a2, px, py, cfg);
        } else {
            lemma_apply_strategy_eq(x, y, target, cfg);
        }
    }
}

/// Distillation is deterministic: any two previews over the same store,
/// base, configuration and field map return the same selected and removed
/// ids.
pub proof fn lemma_preview_deterministic(
    lines: Seq<Seq<char>>,
    base: Seq<usize>,
    fm: FieldMap,
    cfg: DistillConfig,
    sel1: Seq<usize>,
    rem1: Seq<usize>,
    sel2: Seq<usize>,
    rem2: Seq<usize>,
)
    requires
        preview_matches(lines, base, fm, cfg, sel1, rem1),
        preview_matches(lines, base, fm, cfg, sel2, rem2),
    ensures
        sel1 == sel2,
        rem1 == rem2,
{
    let ms1 = choose|ms: Seq<RecordMeta>|
        {
            &&& #[trigger] collect_rel(lines, base, 0, fm, cfg.strategy@, ms)
            &&& ({
                let room: nat = if ms.len() == 0 {
                    0
                } else {
                    target_of(cfg, ms.len() as nat)
                };
                let p = split_ids(base, select_spec(ms, cfg), room);
                sel1 == p.0 && rem1 == p.1 && sel1.len() <= room
            })
        };
    let ms2 = choose|ms: Seq<RecordMeta>|
        {
            &&& #[trigger] collect_rel(lines, base, 0, fm, cfg.strategy@, ms)
            &&& ({
                let room: nat = if ms.len() == 0 {
                    0
                } else {
                    target_of(cfg, ms.len() as nat)
                };
                let p = split_ids(base, select_spec(ms, cfg), room);
                sel2 == p.0 && rem2 == p.1 && sel2.len() <= room
            })
        };
    lemma_collect_rel_eq(lines, base, 0, fm, cfg.strategy@, ms1, ms2);
    lemma_select_spec_eq(ms1, ms2, cfg);
}


/// Number of base ids at or past `i`.
pub open spec fn cnt_ge(base: Seq<usize>, i: nat) -> int
    decreases base.len(),
{
    if base.len() == 0 {
        0
    } else {
        (if base[0] >= i {
            1int
        } else {
            0int
        }) + cnt_ge(base.drop_first(), i)
    }
}

proof fn lemma_cnt_ge_zero(base: Seq<usize>, i: nat)
    requires
        forall|k: int| 0 <= k < base.len() ==> (#[trigger] base[k]) < i,
    ensures
        cnt_ge(base, i) == 0,
    decreases base.len(),
{
    if base.len() > 0 {
        assert(forall|k: int|
            0 <= k < base.drop_first().len() ==> (#[trigger] base.drop_first()[k]) < i) by {
            assert(forall|k: int|
                0 <= k < base.drop_first().len() ==> base.drop_first()[k] == base[k + 1]);
        }
        lemma_cnt_ge_zero(base.drop_first(), i);
    }
}

proof fn lemma_cnt_no_hit(base: Seq<usize>, i: nat)
    requires
        forall|k: int| 0 <= k < base.len() ==> (#[trigger] base[k]) != i,
    ensures
        cnt_ge(base, i) == cnt_ge(base, i + 1),
    decreases base.len(),
{
    if base.len() > 0 {
        assert(base[0] != i);
        assert(forall|k: int|
            0 <= k < base.drop_first().len() ==> (#[trigger] base.drop_first()[k]) != i) by {
            assert(forall|k: int|
                0 <= k < base.drop_first().len() ==> base.drop_first()[k] == base[k + 1]);
        }
        lemma_cnt_no_hit(base.drop_first(), i);
    }
}

proof fn lemma_cnt_step(base: Seq<usize>, i: nat)
    requires
        sorted_strict_ids(base),
        i <= usize::MAX,
    ensures
        cnt_ge(base, i) == cnt_ge(base, i + 1) + (if base.contains(i as usize) {
            1int
        } else {
            0int
        }),
    decreases base.len(),
{
    if base.len() == 0 {
        if base.contains(i as usize) {
            let w = choose|w: int| 0 <= w < base.len() && base[w] == i as usize;
            assert(false);
        }
    } else {
        let rest = base.drop_first();
        assert(sorted_strict_ids(rest)) by {
            assert(forall|a: int, b: int|
                0 <= a < b < rest.len() ==> rest[a] == base[a + 1] && rest[b] == base[b + 1]);
        }
        assert(forall|k: int| 0 <= k < rest.len() ==> (#[trigger] rest[k]) == base[k + 1]);
        if base[0] == i as usize {
            assert forall|k: int| 0 <= k < rest.len() implies (#[trigger] rest[k]) > i by {
                assert(base[0] < base[k + 1]);
                assert(rest[k] == base[k + 1]);
            }
            assert(forall|k: int| 0 <= k < rest.len() ==> (#[trigger] rest[k]) != i);
            lemma_cnt_no_hit(rest, i);
            assert(base.contains(i as usize)) by {
                assert(base[0] == i as usize);
            }
        } else {
            lemma_cnt_step(rest, i);
            assert(base.contains(i as usize) == rest.contains(i as usize)) by {
                if base.contains(i as usize) {
                    let w = choose|w: int| 0 <= w < base.len() && base[w] == i as usize;
                    assert(w > 0);
                    assert(rest[w - 1] == i as usize);
                }
                if rest.contains(i as usize) {
                    let w = choose|w: int| 0 <= w < rest.len() && rest[w] == i as usize;
                    assert(base[w + 1] == i as usize);
                }
            }
        }
    }
}

proof fn lemma_collect_rel_count_from(
    lines: Seq<Seq<char>>,
    base: Seq<usize>,
    i: nat,
    fm: FieldMap,
    strategy: Seq<char>,
    ms: Seq<RecordMeta>,
)
    requires
        collect_rel(lines, base, i, fm, strategy, ms),
        sorted_strict_ids(base),
        lines.len() <= usize::MAX,
        i <= usize::MAX,
        forall|k: int| 0 <= k < base.len() ==> (#[trigger] base[k]) < lines.len(),
    ensures
        ms.len() == cnt_ge(base, i),
    decreases lines.len() - i,
{
    if i >= lines.len() {
        lemma_cnt_ge_zero(base, i);
    } else {
        lemma_cnt_step(base, i);
        if !base.contains(i as usize) {
            lemma_collect_rel_count_from(lines, base, i + 1, fm, strategy, ms);
        } else {
            match spec_parse_json(lines[i as int]) {
                None => {},
                Some(rec) => {
                    lemma_collect_rel_count_from(
                        lines,
                        base,
                        i + 1,
                        fm,
                        strategy,
                        ms.drop_first(),
                    );
                },
            }
        }
    }
}

proof fn lemma_cnt_ge_all(base: Seq<usize>)
    ensures
        cnt_ge(base, 0) == base.len(),
    decreases base.len(),
{
    if base.len() > 0 {
        lemma_cnt_ge_all(base.drop_first());
    }
}

/// The collected metas number exactly the base: with every base id in
/// range, one meta is collected per base id, so the distillation total and
/// target are computed over the base's size.
pub proof fn lemma_collect_rel_count(
    lines: Seq<Seq<char>>,
    base: Seq<usize>,
    fm: FieldMap,
    strategy: Seq<char>,
    ms: Seq<RecordMeta>,
)
    requires
        collect_rel(lines, base, 0, fm, strategy, ms),
        sorted_strict_ids(base),
        lines.len() <= usize::MAX,
        forall|k: int| 0 <= k < base.len() ==> (#[trigger] base[k]) < lines.len(),
    ensures
        ms.len() == base.len(),
{
    lemma_collect_rel_count_from(lines, base, 0, fm, strategy, ms);
    lemma_cnt_ge_all(base);
}

} // verus!
