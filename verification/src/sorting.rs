//! Stable insertion sorting with an exact functional specification.

use vstd::prelude::*;
use vstd::multiset::Multiset;

verus! {

/// A sort order an element type carries with it.
pub trait SortKey: Sized {
    /// The element should be ordered at or before `other`.
    spec fn leq_spec(self, other: Self) -> bool;

    /// Runtime comparison agreeing with [`SortKey::leq_spec`].
    fn leq(&self, other: &Self) -> (r: bool)
        ensures
            r == self.leq_spec(*other),
    ;

    /// The order relates every pair, one way or the other.
    proof fn leq_total(a: Self, b: Self)
        ensures
            a.leq_spec(b) || b.leq_spec(a),
    ;

    /// The order carries over chains.
    proof fn leq_trans(a: Self, b: Self, c: Self)
        requires
            a.leq_spec(b),
            b.leq_spec(c),
        ensures
            a.leq_spec(c),
    ;
}

/// `x` inserted into `s` after every element ordered at or before it, so
/// equal elements keep their arrival order.
pub open spec fn insert_sorted<T: SortKey>(s: Seq<T>, x: T) -> Seq<T>
    decreases s.len(),
{
    if s.len() == 0 {
        seq![x]
    } else if s[0].leq_spec(x) {
        seq![s[0]] + insert_sorted(s.drop_first(), x)
    } else {
        seq![x] + s
    }
}

/// Stable insertion sort of `s` under the type's order.
pub open spec fn sort_elems<T: SortKey>(s: Seq<T>) -> Seq<T>
    decreases s.len(),
{
    if s.len() == 0 {
        s
    } else {
        insert_sorted(sort_elems(s.drop_last()), s.last())
    }
}

/// Every element ordered at or before each later one.
pub open spec fn elems_sorted<T: SortKey>(s: Seq<T>) -> bool {
    forall|i: int, j: int| 0 <= i < j < s.len() ==> (#[trigger] s[i]).leq_spec(#[trigger] s[j])
}

pub proof fn lemma_insert_sorted_multiset<T: SortKey>(s: Seq<T>, x: T)
    ensures
        insert_sorted(s, x).to_multiset() == s.to_multiset().insert(x),
        insert_sorted(s, x).len() == s.len() + 1,
    decreases s.len(),
{
    broadcast use vstd::seq_lib::group_to_multiset_ensures;

    if s.len() == 0 {
        assert(seq![x] =~= Seq::<T>::empty().push(x));
        assert(insert_sorted(s, x).to_multiset() =~= s.to_multiset().insert(x));
    } else if s[0].leq_spec(x) {
        lemma_insert_sorted_multiset(s.drop_first(), x);
        vstd::seq_lib::lemma_multiset_commutative(seq![s[0]], insert_sorted(s.drop_first(), x));
        vstd::seq_lib::lemma_multiset_commutative(seq![s[0]], s.drop_first());
        assert(seq![s[0]] + s.drop_first() =~= s);
        assert(seq![s[0]].to_multiset() =~= Multiset::<T>::empty().insert(s[0])) by {
            assert(seq![s[0]] =~= Seq::<T>::empty().push(s[0]));
        }
        assert(insert_sorted(s, x).to_multiset() =~= s.to_multiset().insert(x));
    } else {
        vstd::seq_lib::lemma_multiset_commutative(seq![x], s);
        assert(seq![x].to_multiset() =~= Multiset::<T>::empty().insert(x)) by {
            assert(seq![x] =~= Seq::<T>::empty().push(x));
        }
        assert(insert_sorted(s, x).to_multiset() =~= s.to_multiset().insert(x));
    }
}

pub proof fn lemma_sort_elems_multiset<T: SortKey>(s: Seq<T>)
    ensures
        sort_elems(s).to_multiset() == s.to_multiset(),
        sort_elems(s).len() == s.len(),
    decreases s.len(),
{
    broadcast use vstd::seq_lib::group_to_multiset_ensures;

    if s.len() > 0 {
        lemma_sort_elems_multiset(s.drop_last());
        lemma_insert_sorted_multiset(sort_elems(s.drop_last()), s.last());
        assert(s =~= s.drop_last().push(s.last()));
        assert(s.to_multiset() =~= s.drop_last().push(s.last()).to_multiset());
        assert(sort_elems(s).to_multiset() =~= s.to_multiset());
    }
}

pub proof fn lemma_insert_sorted_sorted<T: SortKey>(s: Seq<T>, x: T)
    requires
        elems_sorted(s),
    ensures
        elems_sorted(insert_sorted(s, x)),
    decreases s.len(),
{
    broadcast use vstd::seq_lib::group_to_multiset_ensures;

    if s.len() == 0 {
    } else if s[0].leq_spec(x) {
        assert(elems_sorted(s.drop_first())) by {
            assert(forall|i: int, j: int|
                0 <= i < j < s.drop_first().len() ==> (#[trigger] s.drop_first()[i]).leq_spec(
                    #[trigger] s.drop_first()[j],
                ));
        }
        lemma_insert_sorted_sorted(s.drop_first(), x);
        let t = insert_sorted(s.drop_first(), x);
        lemma_insert_sorted_multiset(s.drop_first(), x);
        let r = seq![s[0]] + t;
        assert forall|i: int, j: int| 0 <= i < j < r.len() implies (#[trigger] r[i]).leq_spec(
            #[trigger] r[j],
        ) by {
            if i == 0 {
                assert(t.to_multiset().contains(r[j])) by {
                    assert(t[j - 1] == r[j]);
                }
                if s.drop_first().to_multiset().count(r[j]) > 0 {
                    assert(s.drop_first().contains(r[j]));
                    let k = choose|k: int|
                        0 <= k < s.drop_first().len() && s.drop_first()[k] == r[j];
                    assert(s.drop_first()[k] == s[k + 1]);
                    assert(s[0].leq_spec(s[k + 1]));
                } else {
                    assert(r[j] == x);
                }
            } else {
                assert(t[i - 1].leq_spec(t[j - 1]));
            }
        }
    } else {
        T::leq_total(s[0], x);
        let r = seq![x] + s;
        assert forall|i: int, j: int| 0 <= i < j < r.len() implies (#[trigger] r[i]).leq_spec(
            #[trigger] r[j],
        ) by {
            if i == 0 {
                if j == 1 {
                    assert(x.leq_spec(s[0]));
                } else {
                    assert(s[0].leq_spec(s[j - 1]));
                    T::leq_trans(x, s[0], s[j - 1]);
                }
            } else {
                assert(s[i - 1].leq_spec(s[j - 1]));
            }
        }
    }
}

pub proof fn lemma_sort_elems_sorted<T: SortKey>(s: Seq<T>)
    ensures
        elems_sorted(sort_elems(s)),
    decreases s.len(),
{
    if s.len() > 0 {
        lemma_sort_elems_sorted(s.drop_last());
        lemma_insert_sorted_sorted(sort_elems(s.drop_last()), s.last());
    }
}

/// Where `x` lands: with the first `p` elements ordered at or before `x` and
/// the element at `p` (if any) not, the insertion is a splice at `p`.
pub proof fn lemma_insert_sorted_at<T: SortKey>(s: Seq<T>, x: T, p: int)
    requires
        0 <= p <= s.len(),
        forall|k: int| 0 <= k < p ==> (#[trigger] s[k]).leq_spec(x),
        p < s.len() ==> !s[p].leq_spec(x),
    ensures
        insert_sorted(s, x) == s.subrange(0, p) + seq![x] + s.skip(p),
    decreases p,
{
    if p == 0 {
        assert(insert_sorted(s, x) =~= s.subrange(0, 0) + seq![x] + s.skip(0));
    } else {
        assert(s[0].leq_spec(x));
        assert(forall|k: int| 0 <= k < p - 1 ==> (#[trigger] s.drop_first()[k]).leq_spec(x)) by {
            assert(forall|k: int| 0 <= k < p - 1 ==> s.drop_first()[k] == s[k + 1]);
        }
        if p - 1 < s.drop_first().len() {
            assert(s.drop_first()[p - 1] == s[p]);
        }
        lemma_insert_sorted_at(s.drop_first(), x, p - 1);
        assert(insert_sorted(s, x) =~= s.subrange(0, p) + seq![x] + s.skip(p)) by {
            assert(s.drop_first().subrange(0, p - 1) =~= s.subrange(1, p));
            assert(s.drop_first().skip(p - 1) =~= s.skip(p));
        }
    }
}

/// Stable insertion sort: drains `src`, yields it sorted by the type's order.
pub fn insertion_sort<T: SortKey>(src: &mut Vec<T>) -> (r: Vec<T>)
    ensures
        r@ == sort_elems(old(src)@),
{
    let mut out: Vec<T> = Vec::new();
    let mut i: usize = 0;
    let ghost s0 = src@;
    let n0 = src.len();
    proof {
        assert(s0.subrange(0, 0) =~= Seq::<T>::empty());
    }
    while src.len() > 0
        invariant
            n0 == s0.len(),
            i + src@.len() == s0.len(),
            src@ =~= s0.skip(i as int),
            out@ == sort_elems(s0.subrange(0, i as int)),
        decreases src@.len(),
    {
        let x = src.remove(0);
        proof {
            assert(s0.skip(i as int)[0] == s0[i as int]);
            assert(src@ =~= s0.skip(i as int + 1));
        }
        let ghost out_before = out@;
        let mut p: usize = 0;
        while p < out.len() && out[p].leq(&x)
            invariant
                p <= out@.len(),
                out@ == out_before,
                forall|k: int| 0 <= k < p ==> (#[trigger] out@[k]).leq_spec(x),
            decreases out@.len() - p,
        {
            p = p + 1;
        }
        proof {
            lemma_insert_sorted_at(out_before, x, p as int);
        }
        out.insert(p, x);
        proof {
            assert(out@ =~= out_before.subrange(0, p as int) + seq![x] + out_before.skip(p as int));
            assert(out@ == insert_sorted(out_before, x));
            assert(s0.subrange(0, i as int + 1).drop_last() =~= s0.subrange(0, i as int));
            assert(s0.subrange(0, i as int + 1).last() == s0[i as int]);
            assert(out@ == sort_elems(s0.subrange(0, i as int + 1)));
        }
        i = i + 1;
    }
    proof {
        assert(s0.subrange(0, i as int) =~= s0);
    }
    out
}

} // verus!
