//! Ordering of recorded metric values.
//!
//! Metric values are measured as floating-point numbers; the ordering logic
//! of the library works on their order keys, integers that sort as the
//! numbers do (see `order_key`).

use vstd::prelude::*;
use vstd::relations::*;

verus! {

/// Inserting `x` at `p` keeps `s` sorted when everything before `p` comes
/// no later than `x` and the element at `p` (if any) comes after it.
pub proof fn lemma_insert_sorted<A>(s: Seq<A>, x: A, p: int, le: spec_fn(A, A) -> bool)
    requires
        total_ordering(le),
        sorted_by(s, le),
        0 <= p <= s.len(),
        forall|j: int| 0 <= j < p ==> #[trigger] le(s[j], x),
        p < s.len() ==> !le(s[p], x),
    ensures
        sorted_by(s.insert(p, x), le),
{
    let t = s.insert(p, x);
    assert forall|a: int, b: int| 0 <= a < b < t.len() implies #[trigger] le(t[a], t[b]) by {
        if b < p {
            assert(le(s[a], s[b]));
        } else if b == p {
            assert(le(s[a], x));
        } else if a < p {
            assert(le(s[a], s[b - 1]));
        } else if a == p {
            assert(le(x, s[p]));
            if b - 1 > p {
                assert(le(s[p], s[b - 1]));
            }
        } else {
            assert(le(s[a - 1], s[b - 1]));
        }
    }
}

/// The usual order of keys.
pub open spec fn key_le() -> spec_fn(i64, i64) -> bool {
    |a: i64, b: i64| a <= b
}

/// The keys in ascending order.
pub open spec fn sorted_keys(v: Seq<i64>) -> Seq<i64> {
    v.sort_by(key_le())
}

/// Sorts keys in ascending order.
pub fn sort_keys(v: &Vec<i64>) -> (r: Vec<i64>)
    ensures
        r@ == sorted_keys(v@),
{
    let ghost le = key_le();
    let mut out: Vec<i64> = Vec::new();
    let mut i: usize = 0;
    assert(out@ =~= v@.take(0));
    while i < v.len()
        invariant
            i <= v.len(),
            le == key_le(),
            sorted_by(out@, le),
            out@.to_multiset() == v@.take(i as int).to_multiset(),
        decreases v.len() - i,
    {
        let x = v[i];
        let mut p: usize = 0;
        while p < out.len() && out[p] <= x
            invariant
                p <= out.len(),
                forall|j: int| 0 <= j < p ==> #[trigger] le(out@[j], x),
                le == key_le(),
            decreases out.len() - p,
        {
            p += 1;
        }
        proof {
            lemma_insert_sorted(out@, x, p as int, le);
            vstd::seq_lib::to_multiset_insert(out@, p as int, x);
            assert(v@.take(i + 1) == v@.take(i as int).push(x));
            vstd::seq_lib::to_multiset_build(v@.take(i as int), x);
        }
        out.insert(p, x);
        i += 1;
    }
    proof {
        assert(v@.take(v.len() as int) =~= v@);
        v@.lemma_sort_by_ensures(le);
        vstd::seq_lib::lemma_sorted_unique(out@, v@.sort_by(le), le);
    }
    out
}

/// The order key of a floating-point number, from its IEEE 754 bits: the
/// bits themselves for a positive sign, minus the magnitude bits for a
/// negative sign. Both zeros get key 0; apart from NaN, numbers compare as
/// their keys do.
pub open spec fn key_of_bits(bits: u64) -> i64 {
    if bits < 0x8000_0000_0000_0000 {
        bits as i64
    } else {
        (0 - (bits - 0x8000_0000_0000_0000)) as i64
    }
}

/// Computes `key_of_bits(bits)` (the caller passes `f64::to_bits`).
pub fn order_key(bits: u64) -> (k: i64)
    ensures
        k == key_of_bits(bits),
{
    if bits < 0x8000_0000_0000_0000 {
        bits as i64
    } else {
        let mag: u64 = bits - 0x8000_0000_0000_0000;
        0 - (mag as i64)
    }
}

/// The keys that were recorded, in order.
pub open spec fn recorded(h: Seq<Option<i64>>) -> Seq<i64>
    decreases h.len(),
{
    if h.len() == 0 {
        seq![]
    } else {
        match h.last() {
            Some(k) => recorded(h.drop_last()).push(k),
            None => recorded(h.drop_last()),
        }
    }
}

/// Collects the recorded keys.
pub fn recorded_keys(h: &[Option<i64>]) -> (r: Vec<i64>)
    ensures
        r@ == recorded(h@),
{
    let mut r: Vec<i64> = Vec::new();
    let mut i: usize = 0;
    assert(h@.take(0) =~= Seq::<Option<i64>>::empty());
    while i < h.len()
        invariant
            i <= h.len(),
            r@ == recorded(h@.take(i as int)),
        decreases h.len() - i,
    {
        assert(h@.take(i + 1).drop_last() =~= h@.take(i as int));
        match h[i] {
            Some(k) => r.push(k),
            None => {},
        }
        i += 1;
    }
    assert(h@.take(h.len() as int) =~= h@);
    r
}

} // verus!
