//! Benchmark evaluation: matching predictions to ground truth in time, and
//! the counts that the scorers turn into scores.
//!
//! Timestamps are held as integer ticks of one microsecond; an absent
//! timestamp counts as tick 0.

use vstd::prelude::*;
use vstd::relations::*;
use crate::sorting::lemma_insert_sorted;
use crate::text::chars_of;

verus! {

// ---------------------------------------------------------------------------
// Order in which ground truth is matched
// ---------------------------------------------------------------------------

/// The tick of an optional timestamp (0 when absent).
pub open spec fn time_of(t: Option<i64>) -> int {
    match t {
        Some(x) => x as int,
        None => 0,
    }
}

/// The ticks of a list of optional timestamps.
pub open spec fn times_of(s: Seq<Option<i64>>) -> Seq<int> {
    s.map_values(|t: Option<i64>| time_of(t))
}

/// Order on (tick, position) pairs: by tick, then by position.
pub open spec fn time_pos_le() -> spec_fn((int, int), (int, int)) -> bool {
    |a: (int, int), b: (int, int)| a.0 < b.0 || (a.0 == b.0 && a.1 <= b.1)
}

pub proof fn lemma_time_pos_le_total()
    ensures
        total_ordering(time_pos_le()),
{
    let le = time_pos_le();
    assert(reflexive(le));
    assert(antisymmetric(le)) by {
        assert forall|x: (int, int), y: (int, int)| #[trigger] le(x, y) && #[trigger] le(y, x) implies x
            == y by {}
    }
    assert(transitive(le));
    assert(strongly_connected(le));
}

/// The positions of the ground-truth items in the order they are matched:
/// by timestamp, equal timestamps in input order.
pub open spec fn ground_truth_order(times: Seq<Option<i64>>) -> Seq<int> {
    Seq::new(times.len(), |i: int| (time_of(times[i]), i)).sort_by(time_pos_le()).map_values(
        |p: (int, int)| p.1,
    )
}

spec fn pair_ints(s: Seq<(i64, usize)>) -> Seq<(int, int)> {
    s.map_values(|p: (i64, usize)| (p.0 as int, p.1 as int))
}

spec fn keyed(times: Seq<Option<i64>>) -> Seq<(int, int)> {
    Seq::new(times.len(), |i: int| (time_of(times[i]), i))
}

fn tick(t: Option<i64>) -> (r: i64)
    ensures
        r as int == time_of(t),
{
    match t {
        Some(x) => x,
        None => 0,
    }
}

/// The order in which ground-truth items are matched (see `ground_truth_order`).
pub fn matching_order(times: &[Option<i64>]) -> (r: Vec<usize>)
    ensures
        r@.map_values(|i: usize| i as int) == ground_truth_order(times@),
{
    let ghost le = time_pos_le();
    let ghost all = keyed(times@);
    let mut out: Vec<(i64, usize)> = Vec::new();
    let mut i: usize = 0;
    proof {
        lemma_time_pos_le_total();
        assert(pair_ints(out@) =~= all.take(0));
    }
    while i < times.len()
        invariant
            i <= times.len(),
            le == time_pos_le(),
            total_ordering(le),
            all == keyed(times@),
            sorted_by(pair_ints(out@), le),
            pair_ints(out@).to_multiset() == all.take(i as int).to_multiset(),
            forall|j: int| 0 <= j < out.len() ==> (#[trigger] out@[j]).1 < i,
        decreases times.len() - i,
    {
        let t = tick(times[i]);
        let x = (t, i);
        let ghost xi = (t as int, i as int);
        let mut p: usize = 0;
        while p < out.len() && (out[p].0 < t || (out[p].0 == t && out[p].1 <= i))
            invariant
                p <= out.len(),
                le == time_pos_le(),
                xi == (t as int, i as int),
                forall|j: int| 0 <= j < p ==> #[trigger] le(pair_ints(out@)[j], xi),
            decreases out.len() - p,
        {
            assert(pair_ints(out@)[p as int] == (out@[p as int].0 as int, out@[p as int].1 as int));
            p += 1;
        }
        proof {
            let s = pair_ints(out@);
            if p < out.len() {
                assert(s[p as int] == (out@[p as int].0 as int, out@[p as int].1 as int));
            }
            lemma_insert_sorted(s, xi, p as int, le);
            vstd::seq_lib::to_multiset_insert(s, p as int, xi);
            assert(all[i as int] == xi);
            assert(all.take(i + 1) =~= all.take(i as int).push(xi));
            vstd::seq_lib::to_multiset_build(all.take(i as int), xi);
        }
        let ghost before = out@;
        out.insert(p, x);
        assert(pair_ints(out@) =~= pair_ints(before).insert(p as int, xi));
        i += 1;
    }
    proof {
        assert(all.take(times.len() as int) =~= all);
        all.lemma_sort_by_ensures(le);
        vstd::seq_lib::lemma_sorted_unique(pair_ints(out@), all.sort_by(le), le);
    }
    let mut r: Vec<usize> = Vec::new();
    let mut k: usize = 0;
    while k < out.len()
        invariant
            k <= out.len(),
            r@.map_values(|i: usize| i as int) == pair_ints(out@).take(k as int).map_values(
                |p: (int, int)| p.1,
            ),
        decreases out.len() - k,
    {
        let ghost before = r@.map_values(|i: usize| i as int);
        assert(pair_ints(out@)[k as int] == (out@[k as int].0 as int, out@[k as int].1 as int));
        r.push(out[k].1);
        assert(r@.map_values(|i: usize| i as int) =~= before.push(out@[k as int].1 as int));
        assert(r@.map_values(|i: usize| i as int) =~= pair_ints(out@).take(k + 1).map_values(
            |p: (int, int)| p.1,
        ));
        k += 1;
    }
    assert(pair_ints(out@).take(out.len() as int) =~= pair_ints(out@));
    r
}


// ---------------------------------------------------------------------------
// Greedy nearest-neighbour matching
// ---------------------------------------------------------------------------

/// The distance between two ticks.
pub open spec fn dist(a: int, b: int) -> int {
    if a >= b {
        a - b
    } else {
        b - a
    }
}

/// Prediction `i` is still free and lies within `window` of tick `g`.
pub open spec fn eligible(ptimes: Seq<int>, used: Seq<bool>, g: int, window: int, i: int) -> bool {
    0 <= i < ptimes.len() && !used[i] && dist(ptimes[i], g) <= window
}

/// Prediction `i` is the eligible one closest to `g`, the first of them on a tie.
pub open spec fn is_nearest(ptimes: Seq<int>, used: Seq<bool>, g: int, window: int, i: int) -> bool {
    &&& eligible(ptimes, used, g, window, i)
    &&& forall|j: int|
        #[trigger] eligible(ptimes, used, g, window, j) ==> dist(ptimes[i], g) < dist(ptimes[j], g)
            || (dist(ptimes[i], g) == dist(ptimes[j], g) && i <= j)
}

/// The free prediction nearest to tick `g` within `window`, if any.
pub open spec fn nearest(ptimes: Seq<int>, used: Seq<bool>, g: int, window: int) -> Option<int> {
    if exists|i: int| is_nearest(ptimes, used, g, window, i) {
        Some(choose|i: int| is_nearest(ptimes, used, g, window, i))
    } else {
        None
    }
}

/// The matching after the first `k` ground-truth items of `order`: the
/// matched (ground truth, prediction) positions, the missed ground-truth
/// positions, and which predictions are taken.
pub open spec fn greedy(
    order: Seq<int>,
    gtimes: Seq<int>,
    ptimes: Seq<int>,
    window: int,
    k: nat,
) -> (Seq<(int, int)>, Seq<int>, Seq<bool>)
    decreases k,
{
    if k == 0 {
        (seq![], seq![], Seq::new(ptimes.len(), |i: int| false))
    } else {
        let prev = greedy(order, gtimes, ptimes, window, (k - 1) as nat);
        let gi = order[k - 1];
        match nearest(ptimes, prev.2, gtimes[gi], window) {
            Some(p) => (prev.0.push((gi, p)), prev.1, prev.2.update(p, true)),
            None => (prev.0, prev.1.push(gi), prev.2),
        }
    }
}

/// The whole matching of `predictions` against `ground_truth`.
pub open spec fn match_plan(ground_truth: Seq<Option<i64>>, predictions: Seq<Option<i64>>, window: int) -> (
    Seq<(int, int)>,
    Seq<int>,
    Seq<bool>,
) {
    let order = ground_truth_order(ground_truth);
    greedy(order, times_of(ground_truth), times_of(predictions), window, order.len())
}

/// The positions that are not taken, in order.
pub open spec fn untaken(used: Seq<bool>) -> Seq<int> {
    Seq::new(used.len(), |i: int| i).filter(|i: int| !used[i])
}

proof fn lemma_nearest_is(ptimes: Seq<int>, used: Seq<bool>, g: int, window: int, b: int)
    requires
        is_nearest(ptimes, used, g, window, b),
    ensures
        nearest(ptimes, used, g, window) == Some(b),
{
    let c = choose|i: int| is_nearest(ptimes, used, g, window, i);
    assert(is_nearest(ptimes, used, g, window, c));
    assert(eligible(ptimes, used, g, window, b));
    assert(eligible(ptimes, used, g, window, c));
}

proof fn lemma_nearest_none(ptimes: Seq<int>, used: Seq<bool>, g: int, window: int)
    requires
        forall|i: int| !eligible(ptimes, used, g, window, i),
    ensures
        nearest(ptimes, used, g, window) is None,
{
    if exists|i: int| is_nearest(ptimes, used, g, window, i) {
        let c = choose|i: int| is_nearest(ptimes, used, g, window, i);
        assert(eligible(ptimes, used, g, window, c));
    }
}

fn distance(a: i64, b: i64) -> (d: u64)
    ensures
        d as int == dist(a as int, b as int),
{
    if a >= b {
        let x: i128 = a as i128 - b as i128;
        x as u64
    } else {
        let x: i128 = b as i128 - a as i128;
        x as u64
    }
}

/// The outcome of matching, by position: matched (ground truth, prediction,
/// distance in ticks), predictions left unmatched, ground truth left unmatched.
#[derive(Debug)]
pub struct MatchOutcome {
    pub matched: Vec<(usize, usize, u64)>,
    pub false_positives: Vec<usize>,
    pub missed: Vec<usize>,
}

/// Greedy nearest-neighbour timestamp matcher.
pub struct GreedyTimestampMatcher;

impl GreedyTimestampMatcher {
    /// Matches each ground-truth item, in timestamp order, to the closest
    /// prediction not matched yet that lies within `window` ticks (the first
    /// such prediction on a tie); predictions left over are false positives.
    pub fn match_predictions(
        &self,
        predictions: &[Option<i64>],
        ground_truth: &[Option<i64>],
        window: i64,
    ) -> (r: MatchOutcome)
        ensures
            ({
                let plan = match_plan(ground_truth@, predictions@, window as int);
                &&& r.matched@.map_values(|m: (usize, usize, u64)| (m.0 as int, m.1 as int)) == plan.0
                &&& forall|k: int|
                    0 <= k < r.matched.len() ==> (#[trigger] r.matched@[k]).2 == dist(
                        time_of(predictions@[r.matched@[k].1 as int]),
                        time_of(ground_truth@[r.matched@[k].0 as int]),
                    )
                &&& r.missed@.map_values(|i: usize| i as int) == plan.1
                &&& r.false_positives@.map_values(|i: usize| i as int) == untaken(plan.2)
            }),
    {
        let order = matching_order(ground_truth);
        let ghost ord = order@.map_values(|i: usize| i as int);
        let ghost gt = times_of(ground_truth@);
        let ghost pt = times_of(predictions@);
        let mut used: Vec<bool> = Vec::new();
        let mut u: usize = 0;
        while u < predictions.len()
            invariant
                u <= predictions.len(),
                used@ == Seq::new(u as nat, |i: int| false),
            decreases predictions.len() - u,
        {
            used.push(false);
            assert(used@ =~= Seq::new((u + 1) as nat, |i: int| false));
            u += 1;
        }
        let mut matched: Vec<(usize, usize, u64)> = Vec::new();
        let mut missed: Vec<usize> = Vec::new();
        let mut k: usize = 0;
        proof {
            lemma_ground_truth_order_positions(ground_truth@);
        }
        while k < order.len()
            invariant
                k <= order.len(),
                ord == order@.map_values(|i: usize| i as int),
                ord == ground_truth_order(ground_truth@),
                forall|j: int| 0 <= j < ord.len() ==> 0 <= #[trigger] ord[j] < ground_truth.len(),
                gt == times_of(ground_truth@),
                pt == times_of(predictions@),
                used.len() == predictions.len(),
                ({
                    let st = greedy(ord, gt, pt, window as int, k as nat);
                    &&& matched@.map_values(|m: (usize, usize, u64)| (m.0 as int, m.1 as int)) == st.0
                    &&& missed@.map_values(|i: usize| i as int) == st.1
                    &&& used@ == st.2
                }),
                forall|m: int|
                    0 <= m < matched.len() ==> (#[trigger] matched@[m]).0 < ground_truth.len()
                        && matched@[m].1 < predictions.len(),
                forall|m: int|
                    0 <= m < matched.len() ==> (#[trigger] matched@[m]).2 == dist(
                        pt[matched@[m].1 as int],
                        gt[matched@[m].0 as int],
                    ),
            decreases order.len() - k,
        {
            let gi = order[k];
            assert(ord[k as int] == gi as int);
            let g = tick(ground_truth[gi]);
            assert(gt[gi as int] == g as int);
            let ghost st = greedy(ord, gt, pt, window as int, k as nat);
            let mut best: Option<(usize, u64)> = None;
            let mut j: usize = 0;
            while j < predictions.len()
                invariant
                    j <= predictions.len(),
                    used.len() == predictions.len(),
                    pt == times_of(predictions@),
                    pt.len() == predictions.len(),
                    match best {
                        None => forall|i: int|
                            0 <= i < j ==> !#[trigger] eligible(pt, used@, g as int, window as int, i),
                        Some((b, d)) => {
                            &&& b < j
                            &&& d as int == dist(pt[b as int], g as int)
                            &&& eligible(pt, used@, g as int, window as int, b as int)
                            &&& forall|i: int|
                                0 <= i < j && #[trigger] eligible(pt, used@, g as int, window as int, i)
                                    ==> d < dist(pt[i], g as int) || (d == dist(pt[i], g as int) && b
                                    <= i)
                        },
                    },
                decreases predictions.len() - j,
            {
                let pj = tick(predictions[j]);
                assert(pt[j as int] == pj as int);
                if !used[j] {
                    let d = distance(pj, g);
                    let better = match best {
                        None => true,
                        Some((_, bd)) => d < bd,
                    };
                    if (d as i128) <= (window as i128) && better {
                        best = Some((j, d));
                    }
                }
                j += 1;
            }
            match best {
                Some((b, d)) => {
                    proof {
                        lemma_nearest_is(pt, used@, g as int, window as int, b as int);
                    }
                    let ghost before = matched@.map_values(|m: (usize, usize, u64)| (m.0 as int, m.1 as int));
                    matched.push((gi, b, d));
                    assert(matched@.map_values(|m: (usize, usize, u64)| (m.0 as int, m.1 as int))
                        =~= before.push((gi as int, b as int)));
                    used.set(b, true);
                },
                None => {
                    proof {
                        lemma_nearest_none(pt, used@, g as int, window as int);
                    }
                    let ghost before = missed@.map_values(|i: usize| i as int);
                    missed.push(gi);
                    assert(missed@.map_values(|i: usize| i as int) =~= before.push(gi as int));
                },
            }
            k += 1;
        }
        let ghost fin = greedy(ord, gt, pt, window as int, ord.len());
        let mut false_positives: Vec<usize> = Vec::new();
        let mut q: usize = 0;
        let ghost idx = Seq::new(used.len() as nat, |i: int| i);
        let ghost keep = |i: int| !fin.2[i];
        assert(idx.take(0) =~= Seq::<int>::empty());
        while q < used.len()
            invariant
                q <= used.len(),
                used@ == fin.2,
                idx == Seq::new(used.len() as nat, |i: int| i),
                keep == (|i: int| !fin.2[i]),
                false_positives@.map_values(|i: usize| i as int) == idx.take(q as int).filter(keep),
            decreases used.len() - q,
        {
            let ghost before = false_positives@.map_values(|i: usize| i as int);
            proof {
                assert(idx.take(q + 1) =~= idx.take(q as int).push(q as int));
                idx.take(q as int).lemma_filter_push(q as int, keep);
            }
            if !used[q] {
                false_positives.push(q);
                assert(false_positives@.map_values(|i: usize| i as int) =~= before.push(q as int));
            }
            q += 1;
        }
        assert(idx.take(used.len() as int) =~= idx);
        assert forall|m: int| 0 <= m < matched.len() implies (#[trigger] matched@[m]).2 == dist(
            time_of(predictions@[matched@[m].1 as int]),
            time_of(ground_truth@[matched@[m].0 as int]),
        ) by {
            assert(pt[matched@[m].1 as int] == time_of(predictions@[matched@[m].1 as int]));
            assert(gt[matched@[m].0 as int] == time_of(ground_truth@[matched@[m].0 as int]));
        }
        MatchOutcome { matched, false_positives, missed }
    }
}

proof fn lemma_ground_truth_order_positions(times: Seq<Option<i64>>)
    ensures
        ground_truth_order(times).len() == times.len(),
        forall|j: int|
            0 <= j < times.len() ==> 0 <= #[trigger] ground_truth_order(times)[j] < times.len(),
{
    let all = keyed(times);
    lemma_time_pos_le_total();
    all.lemma_sort_by_ensures(time_pos_le());
    let sorted = all.sort_by(time_pos_le());
    assert(sorted.len() == all.len()) by {
        vstd::seq_lib::to_multiset_len(all);
        vstd::seq_lib::to_multiset_len(sorted);
    }
    assert forall|j: int| 0 <= j < times.len() implies 0 <= #[trigger] ground_truth_order(times)[j]
        < times.len() by {
        assert(sorted.contains(sorted[j]));
        vstd::seq_lib::to_multiset_contains(sorted, sorted[j]);
        vstd::seq_lib::to_multiset_contains(all, sorted[j]);
        assert(all.contains(sorted[j]));
    }
}


proof fn lemma_greedy_invariant(order: Seq<int>, gtimes: Seq<int>, ptimes: Seq<int>, window: int, k: nat)
    requires
        k <= order.len(),
        forall|j: int| 0 <= j < order.len() ==> 0 <= #[trigger] order[j] < gtimes.len(),
    ensures
        ({
            let st = greedy(order, gtimes, ptimes, window, k);
            &&& st.2.len() == ptimes.len()
            &&& st.0.len() + st.1.len() == k
            &&& forall|m: int|
                0 <= m < st.0.len() ==> 0 <= (#[trigger] st.0[m]).1 < ptimes.len() && st.2[st.0[m].1]
                    && 0 <= st.0[m].0 < gtimes.len()
                    && dist(ptimes[st.0[m].1], gtimes[st.0[m].0]) <= window
            &&& forall|a: int, b: int| 0 <= a < b < st.0.len() ==> (#[trigger] st.0[a]).1 != (#[trigger] st.0[b]).1
            &&& forall|p: int|
                0 <= p < ptimes.len() && #[trigger] st.2[p] ==> exists|m: int|
                    0 <= m < st.0.len() && (#[trigger] st.0[m]).1 == p
        }),
    decreases k,
{
    if k > 0 {
        lemma_greedy_invariant(order, gtimes, ptimes, window, (k - 1) as nat);
        let prev = greedy(order, gtimes, ptimes, window, (k - 1) as nat);
        let st = greedy(order, gtimes, ptimes, window, k);
        let gi = order[k - 1];
        match nearest(ptimes, prev.2, gtimes[gi], window) {
            Some(p) => {
                assert(exists|i: int| is_nearest(ptimes, prev.2, gtimes[gi], window, i));
                assert(is_nearest(ptimes, prev.2, gtimes[gi], window, p));
                assert(st.0 == prev.0.push((gi, p)));
                assert forall|m: int|
                    0 <= m < st.0.len() implies 0 <= (#[trigger] st.0[m]).1 < ptimes.len() && st.2[st.0[m].1]
                        && 0 <= st.0[m].0 < gtimes.len() && dist(ptimes[st.0[m].1], gtimes[st.0[m].0]) <= window by {
                    if m < prev.0.len() {
                        assert(st.0[m] == prev.0[m]);
                    }
                }
                assert forall|a: int, b: int| 0 <= a < b < st.0.len() implies (#[trigger] st.0[a]).1
                    != (#[trigger] st.0[b]).1 by {
                    if b == prev.0.len() {
                        assert(st.0[a] == prev.0[a]);
                        assert(prev.2[prev.0[a].1]);
                    } else {
                        assert(st.0[a] == prev.0[a]);
                        assert(st.0[b] == prev.0[b]);
                    }
                }
                assert forall|q: int|
                    0 <= q < ptimes.len() && #[trigger] st.2[q] implies exists|m: int|
                        0 <= m < st.0.len() && (#[trigger] st.0[m]).1 == q by {
                    if q == p {
                        assert(st.0[prev.0.len() as int].1 == q);
                    } else {
                        assert(prev.2[q]);
                        let m = choose|m: int| 0 <= m < prev.0.len() && (#[trigger] prev.0[m]).1 == q;
                        assert(st.0[m] == prev.0[m]);
                    }
                }
            },
            None => {
                assert(st.0 == prev.0 && st.2 == prev.2);
            },
        }
    }
}

/// The matching order holds every ground-truth position exactly once.
proof fn lemma_ground_truth_order_permutation(times: Seq<Option<i64>>)
    ensures
        forall|a: int, b: int|
            0 <= a < times.len() && 0 <= b < times.len() && a != b ==> #[trigger] ground_truth_order(times)[a]
                != #[trigger] ground_truth_order(times)[b],
        forall|g: int| 0 <= g < times.len() ==> #[trigger] ground_truth_order(times).contains(g),
{
    lemma_ground_truth_order_positions(times);
    let all = keyed(times);
    let le = time_pos_le();
    lemma_time_pos_le_total();
    all.lemma_sort_by_ensures(le);
    let sorted = all.sort_by(le);
    let order = ground_truth_order(times);
    assert(sorted.len() == all.len()) by {
        vstd::seq_lib::to_multiset_len(all);
        vstd::seq_lib::to_multiset_len(sorted);
    }
    assert forall|j: int| 0 <= j < sorted.len() implies #[trigger] sorted[j] == all[sorted[j].1] && 0 <= sorted[j].1
        < all.len() by {
        assert(sorted.contains(sorted[j]));
        vstd::seq_lib::to_multiset_contains(sorted, sorted[j]);
        vstd::seq_lib::to_multiset_contains(all, sorted[j]);
        let c = choose|c: int| 0 <= c < all.len() && all[c] == sorted[j];
        assert(all[c].1 == c);
    }
    assert(all.no_duplicates()) by {
        assert forall|a: int, b: int| 0 <= a < all.len() && 0 <= b < all.len() && a != b implies all[a] != all[b] by {
            assert(all[a].1 == a);
            assert(all[b].1 == b);
        }
    }
    all.lemma_multiset_has_no_duplicates();
    sorted.lemma_multiset_has_no_duplicates_conv();
    assert forall|a: int, b: int|
        0 <= a < times.len() && 0 <= b < times.len() && a != b implies #[trigger] order[a] != #[trigger] order[b] by {
        assert(order[a] == sorted[a].1);
        assert(order[b] == sorted[b].1);
        assert(sorted[a] != sorted[b]);
    }
    assert forall|g: int| 0 <= g < times.len() implies #[trigger] order.contains(g) by {
        assert(all.contains(all[g]));
        vstd::seq_lib::to_multiset_contains(all, all[g]);
        vstd::seq_lib::to_multiset_contains(sorted, all[g]);
        let k = choose|k: int| 0 <= k < sorted.len() && sorted[k] == all[g];
        assert(order[k] == g);
    }
}

/// The matched ground-truth position of match `m`.
pub open spec fn matched_at(plan: Seq<(int, int)>, g: int) -> bool {
    exists|m: int| 0 <= m < plan.len() && (#[trigger] plan[m]).0 == g
}

/// Through step `k`, the first `k` positions of the order are each either
/// matched or missed, not both, and neither list repeats a position.
proof fn lemma_greedy_partition(order: Seq<int>, gtimes: Seq<int>, ptimes: Seq<int>, window: int, k: nat)
    requires
        k <= order.len(),
        forall|j: int| 0 <= j < order.len() ==> 0 <= #[trigger] order[j] < gtimes.len(),
        forall|a: int, b: int| 0 <= a < order.len() && 0 <= b < order.len() && a != b ==> #[trigger] order[a]
            != #[trigger] order[b],
    ensures
        ({
            let st = greedy(order, gtimes, ptimes, window, k);
            &&& forall|m: int| 0 <= m < st.0.len() ==> #[trigger] order.take(k as int).contains(st.0[m].0)
            &&& forall|i: int| 0 <= i < st.1.len() ==> #[trigger] order.take(k as int).contains(st.1[i])
            &&& forall|j: int| 0 <= j < k ==> (matched_at(st.0, #[trigger] order[j]) != st.1.contains(order[j]))
            &&& forall|a: int, b: int| 0 <= a < b < st.0.len() ==> (#[trigger] st.0[a]).0 != (#[trigger] st.0[b]).0
            &&& forall|a: int, b: int| 0 <= a < b < st.1.len() ==> #[trigger] st.1[a] != #[trigger] st.1[b]
        }),
    decreases k,
{
    if k > 0 {
        lemma_greedy_partition(order, gtimes, ptimes, window, (k - 1) as nat);
        let prev = greedy(order, gtimes, ptimes, window, (k - 1) as nat);
        let st = greedy(order, gtimes, ptimes, window, k);
        let gi = order[k - 1];
        let before = order.take(k - 1);
        let now = order.take(k as int);
        assert(now == before.push(gi));
        assert(!before.contains(gi)) by {
            if before.contains(gi) {
                let j = choose|j: int| 0 <= j < before.len() && before[j] == gi;
                assert(order[j] == gi);
            }
        }
        assert(!matched_at(prev.0, gi)) by {
            if matched_at(prev.0, gi) {
                let m = choose|m: int| 0 <= m < prev.0.len() && (#[trigger] prev.0[m]).0 == gi;
                assert(before.contains(prev.0[m].0));
            }
        }
        assert(!prev.1.contains(gi)) by {
            if prev.1.contains(gi) {
                let i = choose|i: int| 0 <= i < prev.1.len() && prev.1[i] == gi;
                assert(before.contains(prev.1[i]));
            }
        }
        assert forall|x: int| #[trigger] before.contains(x) implies now.contains(x) by {
            let j = choose|j: int| 0 <= j < before.len() && before[j] == x;
            assert(now[j] == x);
        }
        assert(now.contains(gi)) by {
            assert(now[k - 1] == gi);
        }
        match nearest(ptimes, prev.2, gtimes[gi], window) {
            Some(p) => {
                assert(st.0 == prev.0.push((gi, p)));
                assert(st.1 == prev.1);
                assert forall|i: int| 0 <= i < st.1.len() implies #[trigger] now.contains(st.1[i]) by {
                    assert(before.contains(prev.1[i]));
                }
                assert forall|m: int| 0 <= m < st.0.len() implies #[trigger] now.contains(st.0[m].0) by {
                    if m < prev.0.len() {
                        assert(st.0[m] == prev.0[m]);
                        assert(before.contains(prev.0[m].0));
                    }
                }
                assert forall|j: int| 0 <= j < k implies (matched_at(st.0, #[trigger] order[j]) != st.1.contains(
                    order[j],
                )) by {
                    if j < k - 1 {
                        assert(matched_at(prev.0, order[j]) != prev.1.contains(order[j]));
                        if matched_at(prev.0, order[j]) {
                            let m = choose|m: int| 0 <= m < prev.0.len() && (#[trigger] prev.0[m]).0 == order[j];
                            assert(st.0[m] == prev.0[m]);
                        }
                        if matched_at(st.0, order[j]) {
                            let m = choose|m: int| 0 <= m < st.0.len() && (#[trigger] st.0[m]).0 == order[j];
                            if m < prev.0.len() {
                                assert(st.0[m] == prev.0[m]);
                            } else {
                                assert(order[j] == gi);
                            }
                        }
                    } else {
                        assert(st.0[prev.0.len() as int].0 == gi);
                    }
                }
                assert forall|a: int, b: int| 0 <= a < b < st.0.len() implies (#[trigger] st.0[a]).0
                    != (#[trigger] st.0[b]).0 by {
                    assert(st.0[a] == prev.0[a]);
                    if b < prev.0.len() {
                        assert(st.0[b] == prev.0[b]);
                    } else {
                        assert(before.contains(prev.0[a].0));
                    }
                }
            },
            None => {
                assert(st.0 == prev.0);
                assert(st.1 == prev.1.push(gi));
                assert forall|m: int| 0 <= m < st.0.len() implies #[trigger] now.contains(st.0[m].0) by {
                    assert(before.contains(prev.0[m].0));
                }
                assert forall|i: int| 0 <= i < st.1.len() implies #[trigger] now.contains(st.1[i]) by {
                    if i < prev.1.len() {
                        assert(st.1[i] == prev.1[i]);
                        assert(before.contains(prev.1[i]));
                    }
                }
                assert forall|j: int| 0 <= j < k implies (matched_at(st.0, #[trigger] order[j]) != st.1.contains(
                    order[j],
                )) by {
                    if j < k - 1 {
                        assert(matched_at(prev.0, order[j]) != prev.1.contains(order[j]));
                        if prev.1.contains(order[j]) {
                            let i = choose|i: int| 0 <= i < prev.1.len() && prev.1[i] == order[j];
                            assert(st.1[i] == prev.1[i]);
                        }
                        if st.1.contains(order[j]) {
                            let i = choose|i: int| 0 <= i < st.1.len() && st.1[i] == order[j];
                            if i < prev.1.len() {
                                assert(st.1[i] == prev.1[i]);
                            } else {
                                assert(order[j] == gi);
                            }
                        }
                    } else {
                        assert(st.1[prev.1.len() as int] == gi);
                    }
                }
                assert forall|a: int, b: int| 0 <= a < b < st.1.len() implies #[trigger] st.1[a] != #[trigger] st.1[b] by {
                    assert(st.1[a] == prev.1[a]);
                    if b < prev.1.len() {
                        assert(st.1[b] == prev.1[b]);
                    } else {
                        assert(before.contains(prev.1[a]));
                    }
                }
            },
        }
    }
}

/// Every ground-truth item lands in exactly one bucket: it is either matched
/// (once) or missed (once), never both.
pub proof fn lemma_each_item_in_one_bucket(
    ground_truth: Seq<Option<i64>>,
    predictions: Seq<Option<i64>>,
    window: int,
)
    ensures
        ({
            let plan = match_plan(ground_truth, predictions, window);
            &&& forall|g: int| 0 <= g < ground_truth.len() ==> (#[trigger] matched_at(plan.0, g) != plan.1.contains(g))
            &&& forall|m: int| 0 <= m < plan.0.len() ==> 0 <= (#[trigger] plan.0[m]).0 < ground_truth.len()
            &&& forall|i: int| 0 <= i < plan.1.len() ==> 0 <= #[trigger] plan.1[i] < ground_truth.len()
            &&& forall|a: int, b: int| 0 <= a < b < plan.0.len() ==> (#[trigger] plan.0[a]).0 != (#[trigger] plan.0[b]).0
            &&& forall|a: int, b: int| 0 <= a < b < plan.1.len() ==> #[trigger] plan.1[a] != #[trigger] plan.1[b]
        }),
{
    let order = ground_truth_order(ground_truth);
    lemma_ground_truth_order_positions(ground_truth);
    lemma_ground_truth_order_permutation(ground_truth);
    let gt = times_of(ground_truth);
    let pt = times_of(predictions);
    lemma_greedy_partition(order, gt, pt, window, order.len());
    let plan = match_plan(ground_truth, predictions, window);
    assert(order.take(order.len() as int) == order);
    assert forall|g: int| 0 <= g < ground_truth.len() implies (#[trigger] matched_at(plan.0, g) != plan.1.contains(g)) by {
        assert(order.contains(g));
        let j = choose|j: int| 0 <= j < order.len() && order[j] == g;
        assert(matched_at(plan.0, order[j]) != plan.1.contains(order[j]));
    }
    assert forall|m: int| 0 <= m < plan.0.len() implies 0 <= (#[trigger] plan.0[m]).0 < ground_truth.len() by {
        assert(order.contains(plan.0[m].0));
    }
    assert forall|i: int| 0 <= i < plan.1.len() implies 0 <= #[trigger] plan.1[i] < ground_truth.len() by {
        assert(order.contains(plan.1[i]));
    }
}

/// What the matcher promises for any input: each ground-truth item is
/// either matched or missed (the two counts add up), every match lies within
/// the window, no prediction is matched twice, and a prediction is a false
/// positive exactly when it is not matched.
pub proof fn lemma_matching_sound(
    ground_truth: Seq<Option<i64>>,
    predictions: Seq<Option<i64>>,
    window: int,
)
    ensures
        ({
            let plan = match_plan(ground_truth, predictions, window);
            &&& plan.0.len() + plan.1.len() == ground_truth.len()
            &&& forall|m: int|
                0 <= m < plan.0.len() ==> 0 <= (#[trigger] plan.0[m]).1 < predictions.len() && dist(
                    time_of(predictions[plan.0[m].1]),
                    time_of(ground_truth[plan.0[m].0]),
                ) <= window
            &&& forall|a: int, b: int|
                0 <= a < b < plan.0.len() ==> (#[trigger] plan.0[a]).1 != (#[trigger] plan.0[b]).1
            &&& forall|p: int|
                0 <= p < predictions.len() ==> (#[trigger] untaken(plan.2).contains(p) <==> !exists|m: int|
                    0 <= m < plan.0.len() && (#[trigger] plan.0[m]).1 == p)
        }),
{
    let order = ground_truth_order(ground_truth);
    let gt = times_of(ground_truth);
    let pt = times_of(predictions);
    lemma_ground_truth_order_positions(ground_truth);
    lemma_greedy_invariant(order, gt, pt, window, order.len());
    let plan = match_plan(ground_truth, predictions, window);
    let idx = Seq::new(plan.2.len(), |i: int| i);
    let keep = |i: int| !plan.2[i];
    assert forall|p: int| 0 <= p < predictions.len() implies (#[trigger] untaken(plan.2).contains(p)
        <==> !exists|m: int| 0 <= m < plan.0.len() && (#[trigger] plan.0[m]).1 == p) by {
        broadcast use vstd::seq_lib::group_filter_ensures;
        if !plan.2[p] {
            assert(idx[p] == p);
            assert(untaken(plan.2).contains(p));
            if exists|m: int| 0 <= m < plan.0.len() && (#[trigger] plan.0[m]).1 == p {
                let m = choose|m: int| 0 <= m < plan.0.len() && (#[trigger] plan.0[m]).1 == p;
                assert(plan.2[plan.0[m].1]);
            }
        } else {
            if untaken(plan.2).contains(p) {
                let i = choose|i: int| 0 <= i < untaken(plan.2).len() && untaken(plan.2)[i] == p;
                assert(keep(untaken(plan.2)[i]));
            }
        }
    }
    assert forall|m: int| 0 <= m < plan.0.len() implies 0 <= (#[trigger] plan.0[m]).1
        < predictions.len() && dist(
        time_of(predictions[plan.0[m].1]),
        time_of(ground_truth[plan.0[m].0]),
    ) <= window by {
        assert(pt[plan.0[m].1] == time_of(predictions[plan.0[m].1]));
        assert(gt[plan.0[m].0] == time_of(ground_truth[plan.0[m].0]));
    }
}


// ---------------------------------------------------------------------------
// Scorers
// ---------------------------------------------------------------------------

/// Ticks in one second.
pub const TICKS_PER_SECOND: u64 = 1_000_000;

/// A fraction as (numerator, denominator).
pub open spec fn fraction(num: nat, den: nat) -> (nat, nat) {
    (num, den)
}

/// Precision of `tp` true and `fp` false positives: `tp / (tp + fp)`, 0 when
/// there is nothing to divide.
pub open spec fn precision_fraction(tp: nat, fp: nat) -> (nat, nat) {
    if tp + fp > 0 {
        fraction(tp, tp + fp)
    } else {
        fraction(0, 1)
    }
}

/// Recall of `tp` true positives and `fn_` misses: `tp / (tp + fn_)`, 0 when
/// there is nothing to divide.
pub open spec fn recall_fraction(tp: nat, fn_: nat) -> (nat, nat) {
    precision_fraction(tp, fn_)
}

/// The harmonic mean of precision and recall, in lowest common terms:
/// `2tp / (2tp + fp + fn_)`, and 0 when there is no true positive.
pub open spec fn f1_fraction(tp: nat, fp: nat, fn_: nat) -> (nat, nat) {
    if tp == 0 {
        fraction(0, 1)
    } else {
        fraction(2 * tp, 2 * tp + fp + fn_)
    }
}

/// Detection quality by precision and recall.
pub struct F1Scorer;

impl F1Scorer {
    /// The scorer's name.
    pub fn name(&self) -> (r: &'static str)
        ensures
            r@ == "f1"@,
    {
        "f1"
    }

    /// Precision, as a fraction.
    pub fn precision(&self, tp: usize, fp: usize) -> (r: (u128, u128))
        ensures
            (r.0 as nat, r.1 as nat) == precision_fraction(tp as nat, fp as nat),
    {
        if tp as u128 + fp as u128 > 0 {
            (tp as u128, tp as u128 + fp as u128)
        } else {
            (0, 1)
        }
    }

    /// Recall, as a fraction.
    pub fn recall(&self, tp: usize, missed: usize) -> (r: (u128, u128))
        ensures
            (r.0 as nat, r.1 as nat) == recall_fraction(tp as nat, missed as nat),
    {
        self.precision(tp, missed)
    }

    /// F1 of `tp` matches, `fp` false positives and `missed` misses, as a
    /// fraction; the dimension's score is 100 times it.
    pub fn f1(&self, tp: usize, fp: usize, missed: usize) -> (r: (u128, u128))
        ensures
            (r.0 as nat, r.1 as nat) == f1_fraction(tp as nat, fp as nat, missed as nat),
    {
        if tp == 0 {
            (0, 1)
        } else {
            (2 * tp as u128, 2 * tp as u128 + fp as u128 + missed as u128)
        }
    }
}

/// F1 is the harmonic mean `2PR / (P + R)` of precision `P` and recall `R`
/// (when there is a true positive; cross-multiplied), it never exceeds 1, and
/// it is 1 exactly when there are true positives and no error of either kind.
pub proof fn lemma_f1_harmonic_mean(tp: nat, fp: nat, fn_: nat)
    ensures
        ({
            let (n, d) = f1_fraction(tp, fp, fn_);
            let (pn, pd) = precision_fraction(tp, fp);
            let (rn, rd) = recall_fraction(tp, fn_);
            &&& d > 0
            &&& n <= d
            &&& (n == d <==> tp > 0 && fp == 0 && fn_ == 0)
            &&& tp > 0 ==> n * (pn * rd + rn * pd) == d * (2 * pn * rn)
        }),
{
    if tp > 0 {
        let (n, d) = f1_fraction(tp, fp, fn_);
        assert(n * (tp * (tp + fn_) + tp * (tp + fp)) == d * (2 * tp * tp)) by (nonlinear_arith)
            requires
                n == 2 * tp,
                d == 2 * tp + fp + fn_,
        ;
    }
}

/// The code point of `c` with ASCII capitals folded to lower case.
pub open spec fn ascii_folded(c: char) -> int {
    let x = c as int;
    if 65 <= x <= 90 {
        x + 32
    } else {
        x
    }
}

/// The two texts are equal when ASCII letters are compared without case.
pub open spec fn same_ignoring_ascii_case(a: Seq<char>, b: Seq<char>) -> bool {
    a.len() == b.len() && forall|i: int| 0 <= i < a.len() ==> #[trigger] ascii_folded(a[i]) == ascii_folded(b[i])
}

/// The predicted label of a matched pair agrees with the ground truth's (an
/// absent prediction label counts as empty).
pub open spec fn label_agrees(pair: (Seq<char>, Option<Seq<char>>)) -> bool {
    same_ignoring_ascii_case(
        pair.0,
        match pair.1 {
            Some(l) => l,
            None => Seq::empty(),
        },
    )
}

/// The views of (ground-truth label, predicted label) pairs.
pub open spec fn label_views(pairs: Seq<(String, Option<String>)>) -> Seq<(Seq<char>, Option<Seq<char>>)> {
    pairs.map_values(
        |p: (String, Option<String>)|
            (
                p.0@,
                match p.1 {
                    Some(l) => Some(l@),
                    None => None,
                },
            ),
    )
}

fn folded(c: char) -> (r: u32)
    ensures
        r as int == ascii_folded(c),
{
    let x = c as u32;
    if 65 <= x && x <= 90 {
        x + 32
    } else {
        x
    }
}

fn labels_agree(a: &str, b: &str) -> (r: bool)
    ensures
        r == same_ignoring_ascii_case(a@, b@),
{
    let x = chars_of(a);
    let y = chars_of(b);
    if x.len() != y.len() {
        return false;
    }
    let mut i: usize = 0;
    while i < x.len()
        invariant
            i <= x.len(),
            x.len() == y.len(),
            x@ == a@,
            y@ == b@,
            forall|j: int| 0 <= j < i ==> #[trigger] ascii_folded(a@[j]) == ascii_folded(b@[j]),
        decreases x.len() - i,
    {
        if folded(x[i]) != folded(y[i]) {
            return false;
        }
        i += 1;
    }
    true
}

/// Label correctness on matched pairs.
pub struct ClassificationAccuracyScorer {
    /// The ground-truth field that holds the label.
    pub label_field: String,
}

impl ClassificationAccuracyScorer {
    /// A scorer on the given label field.
    pub fn new(label_field: String) -> (r: Self)
        ensures
            r.label_field@ == label_field@,
    {
        ClassificationAccuracyScorer { label_field }
    }

    /// A scorer on the primary label.
    pub fn on_primary_label() -> (r: Self)
        ensures
            r.label_field@ == "label"@,
    {
        Self::new("label".to_owned())
    }

    /// The scorer's name.
    pub fn name(&self) -> (r: &'static str)
        ensures
            r@ == "classification_accuracy"@,
    {
        "classification_accuracy"
    }

    /// How many matched pairs carry the same label on both sides (ASCII
    /// letters compared without case); accuracy is this over the number of pairs.
    pub fn correct_count(&self, pairs: &[(String, Option<String>)]) -> (r: usize)
        ensures
            r == label_views(pairs@).filter(|p: (Seq<char>, Option<Seq<char>>)| label_agrees(p)).len(),
    {
        let ghost lv = label_views(pairs@);
        let ghost keep = |p: (Seq<char>, Option<Seq<char>>)| label_agrees(p);
        let mut n: usize = 0;
        let mut i: usize = 0;
        assert(lv.take(0) =~= Seq::<(Seq<char>, Option<Seq<char>>)>::empty());
        while i < pairs.len()
            invariant
                i <= pairs.len(),
                lv == label_views(pairs@),
                keep == (|p: (Seq<char>, Option<Seq<char>>)| label_agrees(p)),
                n == lv.take(i as int).filter(keep).len(),
                n <= i,
            decreases pairs.len() - i,
        {
            proof {
                assert(lv.take(i + 1) =~= lv.take(i as int).push(lv[i as int]));
                lv.take(i as int).lemma_filter_push(lv[i as int], keep);
            }
            let predicted: &str = match &pairs[i].1 {
                Some(l) => l.as_str(),
                None => "",
            };
            proof {
                reveal_strlit("");
            }
            if labels_agree(pairs[i].0.as_str(), predicted) {
                n += 1;
            }
            i += 1;
        }
        assert(lv.take(pairs.len() as int) =~= lv);
        n
    }
}

/// The points a match earns for its distance: 100 within 1 s, 90 within 2 s,
/// 80 within 3 s, 60 within 5 s, 40 within 8 s, 20 within 12 s, else 0 (also
/// when the distance is unknown).
pub open spec fn timing_points(delta: Option<u64>) -> nat {
    match delta {
        None => 0,
        Some(d) => if d <= 1 * TICKS_PER_SECOND {
            100
        } else if d <= 2 * TICKS_PER_SECOND {
            90
        } else if d <= 3 * TICKS_PER_SECOND {
            80
        } else if d <= 5 * TICKS_PER_SECOND {
            60
        } else if d <= 8 * TICKS_PER_SECOND {
            40
        } else if d <= 12 * TICKS_PER_SECOND {
            20
        } else {
            0
        },
    }
}

/// The points of all matches.
pub open spec fn total_timing_points(deltas: Seq<Option<u64>>) -> nat
    decreases deltas.len(),
{
    if deltas.len() == 0 {
        0
    } else {
        total_timing_points(deltas.drop_last()) + timing_points(deltas.last())
    }
}

/// Temporal precision on matched pairs.
pub struct TimestampMaeScorer;

impl TimestampMaeScorer {
    /// The scorer's name.
    pub fn name(&self) -> (r: &'static str)
        ensures
            r@ == "timestamp_mae"@,
    {
        "timestamp_mae"
    }

    /// The points one match earns.
    pub fn points(&self, delta: Option<u64>) -> (r: u64)
        ensures
            r as nat == timing_points(delta),
    {
        match delta {
            None => 0,
            Some(d) => if d <= TICKS_PER_SECOND {
                100
            } else if d <= 2 * TICKS_PER_SECOND {
                90
            } else if d <= 3 * TICKS_PER_SECOND {
                80
            } else if d <= 5 * TICKS_PER_SECOND {
                60
            } else if d <= 8 * TICKS_PER_SECOND {
                40
            } else if d <= 12 * TICKS_PER_SECOND {
                20
            } else {
                0
            },
        }
    }

    /// The points of all matches; the dimension's score is this over the
    /// number of matches.
    pub fn total_points(&self, deltas: &[Option<u64>]) -> (r: u128)
        ensures
            r as nat == total_timing_points(deltas@),
            r <= 100 * deltas.len(),
    {
        let mut total: u128 = 0;
        let mut i: usize = 0;
        assert(deltas@.take(0) =~= Seq::<Option<u64>>::empty());
        while i < deltas.len()
            invariant
                i <= deltas.len(),
                total as nat == total_timing_points(deltas@.take(i as int)),
                total <= 100 * i,
            decreases deltas.len() - i,
        {
            let p = self.points(deltas[i]);
            assert(deltas@.take(i + 1).drop_last() =~= deltas@.take(i as int));
            total = total + p as u128;
            i += 1;
        }
        assert(deltas@.take(deltas.len() as int) =~= deltas@);
        total
    }
}

// ---------------------------------------------------------------------------
// Flags and grades
// ---------------------------------------------------------------------------

/// Per-prediction quality flag.
#[derive(Debug, Clone, Copy, PartialEq, Eq, Hash)]
pub enum Flag {
    /// Accurate: all fields correct.
    Green,
    /// Borderline: partial match, needs review.
    Yellow,
    /// Incorrect: wrong result or major mismatch.
    Red,
}

/// The grade of a benchmark score.
#[derive(Debug, Clone, Copy, PartialEq, Eq)]
pub enum Grade {
    /// Below 50.
    Fail,
    /// 50 or more.
    Pass,
    /// 70 or more.
    Good,
    /// 85 or more.
    Excellent,
}

/// The order key of 85.0.
pub const KEY_OF_85: i64 = 0x4055_4000_0000_0000;
/// The order key of 70.0.
pub const KEY_OF_70: i64 = 0x4051_8000_0000_0000;
/// The order key of 50.0.
pub const KEY_OF_50: i64 = 0x4049_0000_0000_0000;
/// The order key of positive infinity; keys beyond it (either way) are NaN.
pub const KEY_OF_INFINITY: i64 = 0x7FF0_0000_0000_0000;

/// The grade of a score, given by its order key (see `sorting::order_key`):
/// thresholds 85, 70 and 50 inclusive; NaN fails, as every comparison with it does.
pub open spec fn grade_of(key: i64) -> Grade {
    if key > KEY_OF_INFINITY || key < -KEY_OF_INFINITY {
        Grade::Fail
    } else if key >= KEY_OF_85 {
        Grade::Excellent
    } else if key >= KEY_OF_70 {
        Grade::Good
    } else if key >= KEY_OF_50 {
        Grade::Pass
    } else {
        Grade::Fail
    }
}

impl Grade {
    /// The grade of the score whose order key is `score_key`.
    pub fn from_score(score_key: i64) -> (r: Grade)
        ensures
            r == grade_of(score_key),
    {
        if score_key > KEY_OF_INFINITY || score_key < -KEY_OF_INFINITY {
            Grade::Fail
        } else if score_key >= KEY_OF_85 {
            Grade::Excellent
        } else if score_key >= KEY_OF_70 {
            Grade::Good
        } else if score_key >= KEY_OF_50 {
            Grade::Pass
        } else {
            Grade::Fail
        }
    }
}

} // verus!
