//! Deterministic seeded pseudo-random numbers and a shuffle built on them.
//! The generator is a 64-bit mix over an additive counter, so a fixed seed
//! yields the same stream on every run and machine.

use vstd::prelude::*;
use vstd::multiset::Multiset;
use vstd::seq_lib::lemma_multiset_commutative;

verus! {

/// The counter step after one draw.
pub open spec fn next_state(s: u64) -> u64 {
    vstd::wrapping::u64_specs::wrapping_add(s, 0x9E3779B97F4A7C15)
}

/// The value drawn at counter state `s`.
pub open spec fn rng_value(s: u64) -> u64 {
    let z1 = vstd::wrapping::u64_specs::wrapping_mul(s ^ (s >> 30u64), 0xBF58476D1CE4E5B9);
    let z2 = vstd::wrapping::u64_specs::wrapping_mul(z1 ^ (z1 >> 27u64), 0x94D049BB133111EB);
    z2 ^ (z2 >> 31u64)
}

/// A seeded generator.
pub struct Rng {
    pub state: u64,
}

impl Rng {
    /// A generator at `seed`.
    pub fn seeded(seed: u64) -> (r: Rng)
        ensures
            r.state == seed,
    {
        Rng { state: seed }
    }

    /// The next draw.
    pub fn next_u64(&mut self) -> (r: u64)
        ensures
            final(self).state == next_state(old(self).state),
            r == rng_value(next_state(old(self).state)),
    {
        self.state = self.state.wrapping_add(0x9E3779B97F4A7C15);
        let s = self.state;
        let z1 = (s ^ (s >> 30u64)).wrapping_mul(0xBF58476D1CE4E5B9);
        let z2 = (z1 ^ (z1 >> 27u64)).wrapping_mul(0x94D049BB133111EB);
        z2 ^ (z2 >> 31u64)
    }
}

/// The shuffle of `v` from counter state `st`: draw an index among the
/// remaining items, take that item out, repeat. Yields the shuffled sequence
/// and the state after the last draw.
pub open spec fn shuffle_spec<A>(v: Seq<A>, st: u64) -> (Seq<A>, u64)
    decreases v.len(),
{
    if v.len() == 0 {
        (v, st)
    } else {
        let st2 = next_state(st);
        let r = rng_value(st2);
        let j = (r as int) % (v.len() as int);
        let p = shuffle_spec(v.remove(j), st2);
        (seq![v[j]] + p.0, p.1)
    }
}

/// A shuffle rearranges: the items and the length stay.
pub proof fn lemma_shuffle_multiset<A>(v: Seq<A>, st: u64)
    ensures
        shuffle_spec(v, st).0.to_multiset() == v.to_multiset(),
        shuffle_spec(v, st).0.len() == v.len(),
    decreases v.len(),
{
    broadcast use vstd::seq_lib::group_to_multiset_ensures;

    if v.len() > 0 {
        let st2 = next_state(st);
        let r = rng_value(st2);
        let j = (r as int) % (v.len() as int);
        let rest = v.remove(j);
        lemma_shuffle_multiset(rest, st2);
        let p = shuffle_spec(rest, st2);
        lemma_multiset_commutative(seq![v[j]], p.0);
        assert(seq![v[j]].to_multiset() =~= Multiset::<A>::empty().insert(v[j])) by {
            assert(seq![v[j]] =~= Seq::<A>::empty().push(v[j]));
        }
        assert(rest.to_multiset() =~= v.to_multiset().remove(v[j]));
        assert((seq![v[j]] + p.0).to_multiset() =~= v.to_multiset());
    }
}

/// Runtime form of [`shuffle_spec`]: drains `src` into the result.
#[verifier::rlimit(50)]
pub fn shuffle_vec<T>(src: &mut Vec<T>, rng: &mut Rng) -> (r: Vec<T>)
    ensures
        r@ == shuffle_spec(old(src)@, old(rng).state).0,
        final(rng).state == shuffle_spec(old(src)@, old(rng).state).1,
{
    let mut out: Vec<T> = Vec::new();
    proof {
        assert(out@ + shuffle_spec(src@, rng.state).0 =~= shuffle_spec(src@, rng.state).0);
    }
    loop
        invariant
            shuffle_spec(old(src)@, old(rng).state).0 == out@ + shuffle_spec(src@, rng.state).0,
            shuffle_spec(old(src)@, old(rng).state).1 == shuffle_spec(src@, rng.state).1,
        decreases src@.len(),
    {
        if src.len() == 0 {
            proof {
                assert(shuffle_spec(src@, rng.state).0 == src@);
                assert(out@ + src@ =~= out@);
            }
            return out;
        }
        let ghost st_before = rng.state;
        let ghost src_before = src@;
        let r = rng.next_u64();
        let n64 = src.len() as u64;
        let j = (r % n64) as usize;
        proof {
            assert((r % n64) as int == (r as int) % (src@.len() as int));
            assert(j < src@.len());
        }
        let x = src.remove(j);
        let ghost out_before = out@;
        out.push(x);
        proof {
            let p = shuffle_spec(src_before, st_before);
            let q = shuffle_spec(src@, rng.state);
            assert(p.0 == seq![src_before[j as int]] + q.0);
            assert(out_before + p.0 =~= out@ + q.0);
        }
    }
}

} // verus!
