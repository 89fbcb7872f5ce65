//! Experiment history: the stores' selection logic (the best run on a
//! metric, the most recent runs) and the Pareto front on two metrics.
//!
//! Metric values are held as their order keys (see `sorting::order_key`);
//! `None` stands for a run that did not record the metric.

use vstd::prelude::*;
use vstd::relations::*;
use crate::bench::{lemma_time_pos_le_total, time_pos_le};
use crate::sorting::lemma_insert_sorted;

verus! {

/// How an experiment ended.
#[derive(Debug, Clone, Copy, PartialEq, Eq)]
pub enum ExperimentStatus {
    Success,
    Error,
    Timeout,
}

/// Which store keeps the history.
#[derive(Debug, Clone, Copy, PartialEq, Eq)]
pub enum StoreKind {
    Jsonl,
    Sqlite,
}

impl StoreKind {
    /// The store a backend name selects: `sqlite`, and the JSONL store for
    /// any other name.
    pub fn for_name(name: &str) -> (r: StoreKind)
        ensures
            r == (if name@ == "sqlite"@ {
                StoreKind::Sqlite
            } else {
                StoreKind::Jsonl
            }),
    {
        if name.to_owned() == "sqlite".to_owned() {
            StoreKind::Sqlite
        } else {
            StoreKind::Jsonl
        }
    }
}

/// The order key is that of a NaN.
pub open spec fn is_nan_key(k: i64) -> bool {
    k > 0x7FF0_0000_0000_0000 || k < -0x7FF0_0000_0000_0000
}

/// `a` compares greater than `b` (never when either is NaN).
pub open spec fn key_greater(a: i64, b: i64) -> bool {
    !is_nan_key(a) && !is_nan_key(b) && a > b
}

/// The run that `Iterator::max_by` picks among the first `n` runs that
/// recorded the metric: it keeps the current pick only while the pick
/// compares greater than the next run, so the last of equal maxima wins.
pub open spec fn max_pick(keys: Seq<Option<i64>>, n: nat) -> Option<int>
    decreases n,
{
    if n == 0 {
        None
    } else {
        let prev = max_pick(keys, (n - 1) as nat);
        match keys[n - 1] {
            None => prev,
            Some(k) => match prev {
                Some(p) => if key_greater(keys[p]->0, k) {
                    Some(p)
                } else {
                    Some(n - 1)
                },
                None => Some(n - 1),
            },
        }
    }
}

/// Append-only JSONL experiment store, one JSON line per result.
pub struct JsonlStore {
    path: String,
}

impl JsonlStore {
    /// A store kept in the file at `path` (its directory is created by the caller).
    pub fn new(path: String) -> (r: Self)
        ensures
            r.spec_path() == path@,
    {
        JsonlStore { path }
    }

    /// The path of the store's file.
    pub closed spec fn spec_path(&self) -> Seq<char> {
        self.path@
    }

    /// The path of the store's file.
    pub fn path(&self) -> (r: &str)
        ensures
            r@ == self.spec_path(),
    {
        self.path.as_str()
    }

    /// The position of the best run on a metric, given every run's order
    /// key on it: among the runs that recorded it, the greatest, the last
    /// one on a tie.
    pub fn best_position(keys: &[Option<i64>]) -> (r: Option<usize>)
        ensures
            match r {
                Some(p) => max_pick(keys@, keys.len() as nat) == Some(p as int),
                None => max_pick(keys@, keys.len() as nat) is None,
            },
    {
        let mut best: Option<usize> = None;
        let mut i: usize = 0;
        while i < keys.len()
            invariant
                i <= keys.len(),
                match best {
                    Some(p) => max_pick(keys@, i as nat) == Some(p as int) && p < i && keys@[p as int] is Some,
                    None => max_pick(keys@, i as nat) is None,
                },
            decreases keys.len() - i,
        {
            match keys[i] {
                None => {},
                Some(k) => {
                    match best {
                        Some(p) => {
                            let bk = match keys[p] {
                                Some(b) => b,
                                None => 0,
                            };
                            let keep = !(bk > 0x7FF0_0000_0000_0000 || bk < -0x7FF0_0000_0000_0000)
                                && !(k > 0x7FF0_0000_0000_0000 || k < -0x7FF0_0000_0000_0000) && bk > k;
                            if !keep {
                                best = Some(i);
                            }
                        },
                        None => {
                            best = Some(i);
                        },
                    }
                },
            }
            i += 1;
        }
        best
    }

    /// Where the `n` most recent of `len` runs start.
    pub fn recent_start(len: usize, n: usize) -> (r: usize)
        ensures
            r == (if n >= len {
                0
            } else {
                len - n
            }),
    {
        len.saturating_sub(n)
    }
}

/// The pick of `max_pick` is one of the first `n` positions.
pub proof fn lemma_max_pick_in_range(keys: Seq<Option<i64>>, n: nat)
    ensures
        max_pick(keys, n) matches Some(p) ==> 0 <= p < n,
    decreases n,
{
    if n > 0 {
        lemma_max_pick_in_range(keys, (n - 1) as nat);
    }
}

/// Without NaN, the run that `max_pick` picks recorded the greatest value,
/// and no later run recorded as much.
pub proof fn lemma_max_pick_is_last_maximum(keys: Seq<Option<i64>>, n: nat)
    requires
        n <= keys.len(),
        forall|i: int| 0 <= i < keys.len() && #[trigger] keys[i] is Some ==> !is_nan_key(keys[i]->0),
    ensures
        match max_pick(keys, n) {
            Some(p) => {
                &&& 0 <= p < n
                &&& keys[p] is Some
                &&& forall|i: int| 0 <= i < n && #[trigger] keys[i] is Some ==> keys[i]->0 <= keys[p]->0
                &&& forall|i: int| p < i < n && #[trigger] keys[i] is Some ==> keys[i]->0 < keys[p]->0
            },
            None => forall|i: int| 0 <= i < n ==> #[trigger] keys[i] is None,
        },
    decreases n,
{
    if n > 0 {
        lemma_max_pick_is_last_maximum(keys, (n - 1) as nat);
    }
}

// ---------------------------------------------------------------------------
// Pareto front
// ---------------------------------------------------------------------------

/// The positions `0..n`.
pub open spec fn positions(n: nat) -> Seq<int> {
    Seq::new(n, |k: int| k)
}

/// The runs that recorded both metrics, as (negated x key, position) pairs.
pub open spec fn pareto_candidates(points: Seq<(Option<i64>, Option<i64>)>) -> Seq<(int, int)> {
    positions(points.len()).filter(has_both(points)).map_values(neg_x_pos(points))
}

/// Run `i` recorded both metrics.
pub open spec fn has_both(points: Seq<(Option<i64>, Option<i64>)>) -> spec_fn(int) -> bool {
    |i: int| points[i].0 is Some && points[i].1 is Some
}

/// Run `i` as a (negated x key, position) pair.
pub open spec fn neg_x_pos(points: Seq<(Option<i64>, Option<i64>)>) -> spec_fn(int) -> (int, int) {
    |i: int| (-(points[i].0->0 as int), i)
}

/// The candidates' positions in scan order: by x from the largest down,
/// runs with equal x in input order.
pub open spec fn pareto_order(points: Seq<(Option<i64>, Option<i64>)>) -> Seq<int> {
    pareto_candidates(points).sort_by(time_pos_le()).map_values(|p: (int, int)| p.1)
}

/// The y key of a position.
pub open spec fn y_of(points: Seq<(Option<i64>, Option<i64>)>, i: int) -> i64 {
    points[i].1->0
}

/// The `k`-th run in scan order beats every run scanned before it on y,
/// and its y is not NaN.
pub open spec fn improves_y(points: Seq<(Option<i64>, Option<i64>)>, order: Seq<int>, k: int) -> bool {
    let y = y_of(points, order[k]);
    &&& !is_nan_key(y)
    &&& forall|j: int| 0 <= j < k ==> is_nan_key(#[trigger] y_of(points, order[j])) || y_of(points, order[j]) < y
}

/// The scan for the Pareto front: running through the runs with both metrics
/// from the largest x down, those whose y beats every y seen so far.
pub open spec fn pareto_scan(points: Seq<(Option<i64>, Option<i64>)>) -> Seq<int> {
    let order = pareto_order(points);
    positions(order.len()).filter(|k: int| improves_y(points, order, k)).map_values(
        |k: int| order[k],
    )
}

/// Entry `k` of the scan is the last one with its x (a later entry with the
/// same x has a greater y and beats it).
pub open spec fn last_of_its_x(points: Seq<(Option<i64>, Option<i64>)>, scan: Seq<int>, k: int) -> bool {
    k + 1 >= scan.len() || points[scan[k + 1]].0 != points[scan[k]].0
}

/// The Pareto front: the runs of the scan, without those that a later run of
/// the scan with the same x beats.
pub open spec fn pareto_spec(points: Seq<(Option<i64>, Option<i64>)>) -> Seq<int> {
    let scan = pareto_scan(points);
    positions(scan.len()).filter(|k: int| last_of_its_x(points, scan, k)).map_values(|k: int| scan[k])
}


spec fn cand_ints(s: Seq<(i128, usize)>) -> Seq<(int, int)> {
    s.map_values(|p: (i128, usize)| (p.0 as int, p.1 as int))
}

/// The runs on the Pareto front of two metrics, by position: the runs that
/// recorded both, scanned from the largest x down (equal x in input
/// order), each kept when its y beats every y seen before it and no later run
/// with the same x beats it in turn.
pub fn pareto_front(points: &[(Option<i64>, Option<i64>)]) -> (r: Vec<usize>)
    requires
        forall|i: int|
            0 <= i < points.len() && #[trigger] points@[i].0 is Some && points@[i].1 is Some
                ==> !is_nan_key(points@[i].0->0),
    ensures
        r@.map_values(|i: usize| i as int) == pareto_spec(points@),
{
    let ghost le = time_pos_le();
    let ghost pv = points@;
    let ghost keep = has_both(pv);
    let ghost f = neg_x_pos(pv);
    let mut out: Vec<(i128, usize)> = Vec::new();
    let mut i: usize = 0;
    proof {
        lemma_time_pos_le_total();
        assert(positions(0).filter(keep) =~= Seq::<int>::empty());
        assert(cand_ints(out@) =~= positions(0).filter(keep).map_values(f));
    }
    while i < points.len()
        invariant
            i <= points.len(),
            pv == points@,
            le == time_pos_le(),
            total_ordering(le),
            keep == has_both(pv),
            f == neg_x_pos(pv),
            sorted_by(cand_ints(out@), le),
            cand_ints(out@).to_multiset() == positions(i as nat).filter(keep).map_values(
                f,
            ).to_multiset(),
            forall|j: int| 0 <= j < out.len() ==> (#[trigger] out@[j]).1 < i,
            forall|j: int| 0 <= j < out.len() ==> points@[(#[trigger] out@[j]).1 as int].1 is Some,
        decreases points.len() - i,
    {
        let ghost prev = positions(i as nat).filter(keep).map_values(f);
        proof {
            assert(positions((i + 1) as nat) =~= positions(i as nat).push(
                i as int,
            ));
            positions(i as nat).lemma_filter_push(i as int, keep);
        }
        match points[i] {
            (Some(x), Some(_)) => {
                let nx: i128 = 0 - (x as i128);
                let ghost xi = (nx as int, i as int);
                assert(f(i as int) == xi);
                let mut p: usize = 0;
                while p < out.len() && (out[p].0 < nx || (out[p].0 == nx && out[p].1 <= i))
                    invariant
                        p <= out.len(),
                        le == time_pos_le(),
                        xi == (nx as int, i as int),
                        forall|j: int| 0 <= j < p ==> #[trigger] le(cand_ints(out@)[j], xi),
                    decreases out.len() - p,
                {
                    assert(cand_ints(out@)[p as int] == (out@[p as int].0 as int, out@[p as int].1 as int));
                    p += 1;
                }
                proof {
                    let s = cand_ints(out@);
                    if p < out.len() {
                        assert(s[p as int] == (out@[p as int].0 as int, out@[p as int].1 as int));
                    }
                    lemma_insert_sorted(s, xi, p as int, le);
                    vstd::seq_lib::to_multiset_insert(s, p as int, xi);
                    let nxt = positions((i + 1) as nat).filter(keep).map_values(f);
                    assert(nxt =~= prev.push(xi));
                    vstd::seq_lib::to_multiset_build(prev, xi);
                }
                let ghost before = out@;
                out.insert(p, (nx, i));
                assert(cand_ints(out@) =~= cand_ints(before).insert(p as int, xi));
                assert forall|j: int| 0 <= j < out.len() implies points@[(#[trigger] out@[j]).1 as int].1 is Some
                    && out@[j].1 < i + 1 by {
                    if j < p {
                        assert(out@[j] == before[j]);
                    } else if j > p {
                        assert(out@[j] == before[j - 1]);
                    }
                }
            },
            _ => {
                assert(positions((i + 1) as nat).filter(keep).map_values(f) =~= prev);
            },
        }
        i += 1;
    }
    let ghost cands = pareto_candidates(pv);
    proof {
        assert(positions(points.len() as nat).filter(keep).map_values(f) =~= cands);
        cands.lemma_sort_by_ensures(le);
        vstd::seq_lib::lemma_sorted_unique(cand_ints(out@), cands.sort_by(le), le);
    }
    let ghost order = pareto_order(pv);
    assert(order =~= cand_ints(out@).map_values(|p: (int, int)| p.1));
    let mut front: Vec<usize> = Vec::new();
    let mut have: bool = false;
    let mut best: i64 = 0;
    let mut k: usize = 0;
    let ghost ks = positions(order.len());
    let ghost good = |k: int| improves_y(pv, order, k);
    let ghost g = |k: int| order[k];
    assert(ks.take(0) =~= Seq::<int>::empty());
    while k < out.len()
        invariant
            k <= out.len(),
            pv == points@,
            order.len() == out.len(),
            forall|j: int| 0 <= j < out.len() ==> #[trigger] order[j] == out@[j].1 as int,
            forall|j: int| 0 <= j < out.len() ==> (#[trigger] out@[j]).1 < points.len(),
            forall|j: int| 0 <= j < out.len() ==> points@[(#[trigger] out@[j]).1 as int].1 is Some,
            ks == positions(order.len()),
            good == (|k: int| improves_y(pv, order, k)),
            g == (|k: int| order[k]),
            front@.map_values(|i: usize| i as int) == ks.take(k as int).filter(good).map_values(g),
            forall|j: int| 0 <= j < front.len() ==> (#[trigger] front@[j]) < points.len(),
            !is_nan_key(best),
            forall|j: int|
                0 <= j < k ==> is_nan_key(#[trigger] y_of(pv, order[j])) || (have && y_of(pv, order[j]) <= best),
            have ==> exists|j: int| 0 <= j < k && #[trigger] y_of(pv, order[j]) == best,
        decreases out.len() - k,
    {
        let idx = out[k].1;
        let y = match points[idx].1 {
            Some(v) => v,
            None => 0,
        };
        assert(y_of(pv, order[k as int]) == y);
        let ghost before = front@.map_values(|i: usize| i as int);
        proof {
            assert(ks.take(k + 1) =~= ks.take(k as int).push(k as int));
            ks.take(k as int).lemma_filter_push(k as int, good);
        }
        let nan = y > 0x7FF0_0000_0000_0000 || y < -0x7FF0_0000_0000_0000;
        if !nan && (!have || y > best) {
            assert(good(k as int)) by {
                assert forall|j: int| 0 <= j < k implies is_nan_key(#[trigger] y_of(pv, order[j]))
                    || y_of(pv, order[j]) < y by {}
            }
            front.push(idx);
            best = y;
            have = true;
            assert(front@.map_values(|i: usize| i as int) =~= before.push(order[k as int]));
        } else {
            assert(!good(k as int)) by {
                if !nan && have {
                    let j = choose|j: int| 0 <= j < k && #[trigger] y_of(pv, order[j]) == best;
                    assert(!(is_nan_key(y_of(pv, order[j])) || y_of(pv, order[j]) < y));
                }
            }
        }
        assert(ks.take(k + 1).filter(good).map_values(g) =~= if good(k as int) {
            ks.take(k as int).filter(good).map_values(g).push(g(k as int))
        } else {
            ks.take(k as int).filter(good).map_values(g)
        });
        k += 1;
    }
    assert(ks.take(out.len() as int) =~= ks);
    let ghost scan = pareto_scan(pv);
    assert(front@.map_values(|i: usize| i as int) == scan);
    let ghost ps = positions(scan.len());
    let ghost last = |k: int| last_of_its_x(pv, scan, k);
    let ghost h = |k: int| scan[k];
    let mut kept: Vec<usize> = Vec::new();
    let mut a: usize = 0;
    assert(ps.take(0) =~= Seq::<int>::empty());
    while a < front.len()
        invariant
            a <= front.len(),
            pv == points@,
            scan.len() == front.len(),
            forall|j: int| 0 <= j < front.len() ==> #[trigger] scan[j] == front@[j] as int,
            forall|j: int| 0 <= j < front.len() ==> (#[trigger] front@[j]) < points.len(),
            ps == positions(scan.len()),
            last == (|k: int| last_of_its_x(pv, scan, k)),
            h == (|k: int| scan[k]),
            kept@.map_values(|i: usize| i as int) == ps.take(a as int).filter(last).map_values(h),
        decreases front.len() - a,
    {
        let ghost before = kept@.map_values(|i: usize| i as int);
        proof {
            assert(ps.take(a + 1) =~= ps.take(a as int).push(a as int));
            ps.take(a as int).lemma_filter_push(a as int, last);
        }
        let is_last = if a + 1 == front.len() {
            true
        } else {
            match (points[front[a + 1]].0, points[front[a]].0) {
                (Some(x1), Some(x0)) => x1 != x0,
                (None, None) => false,
                _ => true,
            }
        };
        assert(is_last == last(a as int));
        if is_last {
            kept.push(front[a]);
            assert(kept@.map_values(|i: usize| i as int) =~= before.push(h(a as int)));
        }
        assert(ps.take(a + 1).filter(last).map_values(h) =~= if last(a as int) {
            ps.take(a as int).filter(last).map_values(h).push(h(a as int))
        } else {
            ps.take(a as int).filter(last).map_values(h)
        });
        a += 1;
    }
    assert(ps.take(front.len() as int) =~= ps);
    kept
}


/// Keeping some of the positions `0..n` keeps them in increasing order.
proof fn lemma_filter_positions_increasing(n: nat, keep: spec_fn(int) -> bool)
    ensures
        forall|a: int, b: int|
            0 <= a < b < positions(n).filter(keep).len() ==> #[trigger] positions(n).filter(keep)[a]
                < #[trigger] positions(n).filter(keep)[b],
        forall|a: int|
            0 <= a < positions(n).filter(keep).len() ==> 0 <= #[trigger] positions(n).filter(keep)[a] < n
                && keep(positions(n).filter(keep)[a]),
    decreases n,
{
    broadcast use vstd::seq_lib::group_filter_ensures;
    let s = positions(n);
    if n > 0 {
        lemma_filter_positions_increasing((n - 1) as nat, keep);
        let t = positions((n - 1) as nat);
        assert(s.drop_last() =~= t);
        assert(s.last() == n - 1);
        assert(s =~= t.push(n - 1));
        t.lemma_filter_push(n - 1, keep);
    }
}

/// Along the scan the y value strictly increases while the x value never
/// increases.
proof fn lemma_scan_monotone(points: Seq<(Option<i64>, Option<i64>)>)
    requires
        forall|i: int|
            0 <= i < points.len() && #[trigger] points[i].0 is Some && points[i].1 is Some
                ==> !is_nan_key(points[i].0->0),
    ensures
        ({
            let front = pareto_scan(points);
            forall|a: int, b: int|
                0 <= a < b < front.len() ==> points[#[trigger] front[a]].1->0 < points[#[trigger] front[b]].1->0
                    && points[front[a]].0->0 >= points[front[b]].0->0
        }),
{
    broadcast use vstd::seq_lib::group_filter_ensures;
    let le = time_pos_le();
    lemma_time_pos_le_total();
    let cands = pareto_candidates(points);
    cands.lemma_sort_by_ensures(le);
    let sorted = cands.sort_by(le);
    let order = pareto_order(points);
    let ks = positions(order.len());
    let good = |k: int| improves_y(points, order, k);
    lemma_filter_positions_increasing(order.len(), good);
    let fk = ks.filter(good);
    let front = pareto_scan(points);
    assert(front == fk.map_values(|k: int| order[k]));
    let idx = positions(points.len());
    let both = has_both(points);
    lemma_filter_positions_increasing(points.len(), both);
    assert(sorted.len() == cands.len()) by {
        vstd::seq_lib::to_multiset_len(cands);
        vstd::seq_lib::to_multiset_len(sorted);
    }
    assert forall|m: int| 0 <= m < sorted.len() implies #[trigger] sorted[m] == (-(points[sorted[m].1].0->0 as int), sorted[m].1)
        && 0 <= sorted[m].1 < points.len() && points[sorted[m].1].0 is Some && points[sorted[m].1].1 is Some by {
        assert(sorted.contains(sorted[m]));
        vstd::seq_lib::to_multiset_contains(sorted, sorted[m]);
        vstd::seq_lib::to_multiset_contains(cands, sorted[m]);
        let c = choose|c: int| 0 <= c < cands.len() && cands[c] == sorted[m];
        let fi = idx.filter(both);
        assert(fi.contains(fi[c]));
        assert(both(fi[c]));
    }
    assert forall|a: int, b: int| 0 <= a < b < front.len() implies points[#[trigger] front[a]].1->0
        < points[#[trigger] front[b]].1->0 && points[front[a]].0->0 >= points[front[b]].0->0 by {
        let ka = fk[a];
        let kb = fk[b];
        assert(ka < kb);
        assert(good(kb));
        assert(good(ka));
        assert(order[ka] == sorted[ka].1);
        assert(order[kb] == sorted[kb].1);
        assert(le(sorted[ka], sorted[kb]));
        assert(is_nan_key(y_of(points, order[ka])) || y_of(points, order[ka]) < y_of(points, order[kb]));
    }
}


/// The scan order of the Pareto front holds each run that recorded both
/// metrics exactly once, by x from the largest down.
proof fn lemma_scan_order(points: Seq<(Option<i64>, Option<i64>)>)
    requires
        forall|i: int|
            0 <= i < points.len() && #[trigger] points[i].0 is Some && points[i].1 is Some
                ==> !is_nan_key(points[i].0->0),
    ensures
        ({
            let order = pareto_order(points);
            &&& forall|m: int| 0 <= m < order.len() ==> 0 <= #[trigger] order[m] < points.len()
                && points[order[m]].0 is Some && points[order[m]].1 is Some
            &&& forall|a: int, b: int| 0 <= a < b < order.len() ==> points[#[trigger] order[a]].0->0
                >= points[#[trigger] order[b]].0->0
            &&& forall|a: int, b: int|
                0 <= a < b < order.len() && points[#[trigger] order[a]].0->0 == points[#[trigger] order[b]].0->0
                    ==> order[a] < order[b]
            &&& forall|a: int, b: int| 0 <= a < order.len() && 0 <= b < order.len() && a != b
                ==> #[trigger] order[a] != #[trigger] order[b]
            &&& forall|r: int| 0 <= r < points.len() && #[trigger] points[r].0 is Some && points[r].1 is Some
                ==> exists|k: int| 0 <= k < order.len() && #[trigger] order[k] == r
        }),
{
    broadcast use vstd::seq_lib::group_filter_ensures;
    let le = time_pos_le();
    lemma_time_pos_le_total();
    let cands = pareto_candidates(points);
    cands.lemma_sort_by_ensures(le);
    let sorted = cands.sort_by(le);
    let order = pareto_order(points);
    let idx = positions(points.len());
    let both = has_both(points);
    lemma_filter_positions_increasing(points.len(), both);
    let fi = idx.filter(both);
    assert(cands == fi.map_values(neg_x_pos(points)));
    assert(sorted.len() == cands.len()) by {
        vstd::seq_lib::to_multiset_len(cands);
        vstd::seq_lib::to_multiset_len(sorted);
    }
    assert forall|m: int| 0 <= m < sorted.len() implies #[trigger] sorted[m] == (-(points[sorted[m].1].0->0 as int), sorted[m].1)
        && 0 <= sorted[m].1 < points.len() && points[sorted[m].1].0 is Some && points[sorted[m].1].1 is Some by {
        assert(sorted.contains(sorted[m]));
        vstd::seq_lib::to_multiset_contains(sorted, sorted[m]);
        vstd::seq_lib::to_multiset_contains(cands, sorted[m]);
        let c = choose|c: int| 0 <= c < cands.len() && cands[c] == sorted[m];
        assert(fi.contains(fi[c]));
        assert(both(fi[c]));
    }
    assert forall|m: int| 0 <= m < order.len() implies #[trigger] order[m] == sorted[m].1 by {}
    assert(cands.no_duplicates()) by {
        assert forall|a: int, b: int| 0 <= a < cands.len() && 0 <= b < cands.len() && a != b implies cands[a]
            != cands[b] by {
            assert(cands[a].1 == fi[a]);
            assert(cands[b].1 == fi[b]);
        }
    }
    cands.lemma_multiset_has_no_duplicates();
    sorted.lemma_multiset_has_no_duplicates_conv();
    assert forall|a: int, b: int| 0 <= a < b < order.len() implies points[#[trigger] order[a]].0->0
        >= points[#[trigger] order[b]].0->0 by {
        assert(le(sorted[a], sorted[b]));
    }
    assert forall|a: int, b: int| 0 <= a < order.len() && 0 <= b < order.len() && a != b implies #[trigger] order[a]
        != #[trigger] order[b] by {
        assert(sorted[a] != sorted[b]);
    }
    assert forall|a: int, b: int|
        0 <= a < b < order.len() && points[#[trigger] order[a]].0->0 == points[#[trigger] order[b]].0->0
            implies order[a] < order[b] by {
        assert(le(sorted[a], sorted[b]));
        assert(sorted[a] != sorted[b]);
    }
    assert forall|r: int| 0 <= r < points.len() && #[trigger] points[r].0 is Some && points[r].1 is Some implies exists|k: int|
        0 <= k < order.len() && #[trigger] order[k] == r by {
        assert(idx[r] == r);
        assert(both(idx[r]));
        assert(fi.contains(r));
        let c = choose|c: int| 0 <= c < fi.len() && fi[c] == r;
        let e = cands[c];
        assert(e == (-(points[r].0->0 as int), r));
        assert(cands.contains(e));
        vstd::seq_lib::to_multiset_contains(cands, e);
        vstd::seq_lib::to_multiset_contains(sorted, e);
        let k = choose|k: int| 0 <= k < sorted.len() && sorted[k] == e;
        assert(order[k] == r);
    }
}

/// No run of the scan is beaten by a run with a greater x (runs with a NaN y
/// aside), and every run the scan leaves out (with both metrics and a y that
/// is not NaN) is matched or beaten by another run.
proof fn lemma_scan_undominated(points: Seq<(Option<i64>, Option<i64>)>)
    requires
        forall|i: int|
            0 <= i < points.len() && #[trigger] points[i].0 is Some && points[i].1 is Some
                ==> !is_nan_key(points[i].0->0),
    ensures
        ({
            let front = pareto_scan(points);
            &&& forall|a: int, q: int|
                #![trigger front[a], points[q]]
                0 <= a < front.len() && 0 <= q < points.len() && points[q].0 is Some && points[q].1 is Some
                    && !is_nan_key(points[q].1->0) && points[q].0->0 > points[front[a]].0->0
                    ==> points[q].1->0 < points[front[a]].1->0
            &&& forall|r: int|
                #![trigger front.contains(r), points[r]]
                0 <= r < points.len() && points[r].0 is Some && points[r].1 is Some && !is_nan_key(points[r].1->0)
                    && !front.contains(r)
                    ==> exists|q: int|
                    0 <= q < points.len() && q != r && #[trigger] points[q].0 is Some && points[q].1 is Some
                        && !is_nan_key(points[q].1->0) && points[q].0->0 >= points[r].0->0 && points[q].1->0
                        >= points[r].1->0
        }),
{
    broadcast use vstd::seq_lib::group_filter_ensures;
    lemma_scan_order(points);
    let order = pareto_order(points);
    let ks = positions(order.len());
    let good = |k: int| improves_y(points, order, k);
    lemma_filter_positions_increasing(order.len(), good);
    let fk = ks.filter(good);
    let front = pareto_scan(points);
    assert(front == fk.map_values(|k: int| order[k]));
    assert forall|a: int, q: int|
        #![trigger front[a], points[q]]
        0 <= a < front.len() && 0 <= q < points.len() && points[q].0 is Some && points[q].1 is Some
            && !is_nan_key(points[q].1->0) && points[q].0->0 > points[front[a]].0->0 implies points[q].1->0
        < points[front[a]].1->0 by {
        let kp = fk[a];
        assert(good(kp));
        assert(front[a] == order[kp]);
        let kq = choose|k: int| 0 <= k < order.len() && #[trigger] order[k] == q;
        if kq >= kp {
            if kq > kp {
                assert(points[order[kp]].0->0 >= points[order[kq]].0->0);
            }
            assert(false);
        }
        assert(is_nan_key(y_of(points, order[kq])) || y_of(points, order[kq]) < y_of(points, order[kp]));
    }
    assert forall|r: int|
        #![trigger front.contains(r), points[r]]
        0 <= r < points.len() && points[r].0 is Some && points[r].1 is Some && !is_nan_key(points[r].1->0)
            && !front.contains(r) implies exists|q: int|
        0 <= q < points.len() && q != r && #[trigger] points[q].0 is Some && points[q].1 is Some
            && !is_nan_key(points[q].1->0) && points[q].0->0 >= points[r].0->0 && points[q].1->0
            >= points[r].1->0 by {
        let kr = choose|k: int| 0 <= k < order.len() && #[trigger] order[k] == r;
        if good(kr) {
            assert(ks[kr] == kr);
            assert(fk.contains(kr));
            let a = choose|a: int| 0 <= a < fk.len() && fk[a] == kr;
            assert(front[a] == r);
            assert(front.contains(r));
        }
        assert(!improves_y(points, order, kr));
        let j = choose|j: int| 0 <= j < kr && !(is_nan_key(#[trigger] y_of(points, order[j])) || y_of(points, order[j])
            < y_of(points, order[kr]));
        let q = order[j];
        assert(points[order[j]].0->0 >= points[order[kr]].0->0);
        assert(q != r);
        assert(points[q].0 is Some);
    }
}


/// The scan holds runs that recorded both metrics, each the order entry of a
/// position that beats the runs scanned before it.
proof fn lemma_scan_members(points: Seq<(Option<i64>, Option<i64>)>)
    requires
        forall|i: int|
            0 <= i < points.len() && #[trigger] points[i].0 is Some && points[i].1 is Some
                ==> !is_nan_key(points[i].0->0),
    ensures
        ({
            let order = pareto_order(points);
            let fk = positions(order.len()).filter(|k: int| improves_y(points, order, k));
            let scan = pareto_scan(points);
            &&& scan.len() == fk.len()
            &&& forall|k: int| 0 <= k < scan.len() ==> #[trigger] scan[k] == order[fk[k]]
                && 0 <= fk[k] < order.len() && improves_y(points, order, fk[k])
            &&& forall|k: int| 0 <= k < scan.len() ==> 0 <= #[trigger] scan[k] < points.len()
                && points[scan[k]].0 is Some && points[scan[k]].1 is Some
            &&& forall|a: int, b: int| 0 <= a < b < fk.len() ==> #[trigger] fk[a] < #[trigger] fk[b]
        }),
{
    lemma_scan_order(points);
    let order = pareto_order(points);
    let good = |k: int| improves_y(points, order, k);
    lemma_filter_positions_increasing(order.len(), good);
    let fk = positions(order.len()).filter(good);
    let scan = pareto_scan(points);
    assert(scan == fk.map_values(|k: int| order[k]));
    assert forall|k: int| 0 <= k < scan.len() implies 0 <= #[trigger] scan[k] < points.len()
        && points[scan[k]].0 is Some && points[scan[k]].1 is Some by {
        assert(scan[k] == order[fk[k]]);
    }
}

/// Along the Pareto front the y value strictly increases while the x value
/// strictly decreases.
pub proof fn lemma_pareto_front_monotone(points: Seq<(Option<i64>, Option<i64>)>)
    requires
        forall|i: int|
            0 <= i < points.len() && #[trigger] points[i].0 is Some && points[i].1 is Some
                ==> !is_nan_key(points[i].0->0),
    ensures
        ({
            let front = pareto_spec(points);
            forall|a: int, b: int|
                0 <= a < b < front.len() ==> points[#[trigger] front[a]].1->0 < points[#[trigger] front[b]].1->0
                    && points[front[a]].0->0 > points[front[b]].0->0
        }),
{
    broadcast use vstd::seq_lib::group_filter_ensures;
    lemma_scan_monotone(points);
    lemma_scan_members(points);
    let scan = pareto_scan(points);
    let last = |k: int| last_of_its_x(points, scan, k);
    lemma_filter_positions_increasing(scan.len(), last);
    let fl = positions(scan.len()).filter(last);
    let front = pareto_spec(points);
    assert(front == fl.map_values(|k: int| scan[k]));
    assert forall|a: int, b: int| 0 <= a < b < front.len() implies points[#[trigger] front[a]].1->0
        < points[#[trigger] front[b]].1->0 && points[front[a]].0->0 > points[front[b]].0->0 by {
        let ka = fl[a];
        let kb = fl[b];
        assert(ka < kb);
        assert(last(ka));
        assert(front[a] == scan[ka]);
        assert(front[b] == scan[kb]);
        assert(points[scan[ka + 1]].0 != points[scan[ka]].0);
        assert(points[scan[ka]].0->0 >= points[scan[ka + 1]].0->0);
        if kb > ka + 1 {
            assert(points[scan[ka + 1]].0->0 >= points[scan[kb]].0->0);
        }
    }
}

/// A run scanned after a run that beat everything before it, with a higher
/// y that is a number, is matched or beaten by a run that the scan keeps
/// between the two.
proof fn lemma_later_higher(points: Seq<(Option<i64>, Option<i64>)>, kp: int, kq: int)
    requires
        0 <= kp < kq < pareto_order(points).len(),
        improves_y(points, pareto_order(points), kp),
        !is_nan_key(y_of(points, pareto_order(points)[kq])),
        y_of(points, pareto_order(points)[kq]) > y_of(points, pareto_order(points)[kp]),
    ensures
        exists|m: int|
            kp < m <= kq && #[trigger] improves_y(points, pareto_order(points), m) && y_of(
                points,
                pareto_order(points)[m],
            ) >= y_of(points, pareto_order(points)[kq]),
    decreases kq,
{
    let order = pareto_order(points);
    if !improves_y(points, order, kq) {
        let j = choose|j: int| 0 <= j < kq && !(is_nan_key(#[trigger] y_of(points, order[j])) || y_of(points, order[j])
            < y_of(points, order[kq]));
        if j < kp {
            assert(is_nan_key(y_of(points, order[j])) || y_of(points, order[j]) < y_of(points, order[kp]));
            assert(false);
        }
        assert(j != kp);
        lemma_later_higher(points, kp, j);
        let m = choose|m: int| kp < m <= j && #[trigger] improves_y(points, order, m) && y_of(points, order[m])
            >= y_of(points, order[j]);
        assert(kp < m <= kq);
    } else {
        assert(kp < kq <= kq);
    }
}

/// No run on the Pareto front is dominated: no run that recorded both
/// metrics (with a y that is not NaN) has an x and a y at least as high as a
/// run on the front with one of them higher. Every run left off the front
/// (with both metrics and a y that is not NaN) is matched or beaten on both
/// metrics by another run. Values are compared by their order keys, which
/// order numbers that are not NaN as the numbers do.
pub proof fn lemma_pareto_front_undominated(points: Seq<(Option<i64>, Option<i64>)>)
    requires
        forall|i: int|
            0 <= i < points.len() && #[trigger] points[i].0 is Some && points[i].1 is Some
                ==> !is_nan_key(points[i].0->0),
    ensures
        ({
            let front = pareto_spec(points);
            &&& forall|a: int, q: int|
                #![trigger front[a], points[q]]
                0 <= a < front.len() && 0 <= q < points.len() && points[q].0 is Some && points[q].1 is Some
                    && !is_nan_key(points[q].1->0) && points[q].0->0 >= points[front[a]].0->0
                    && points[q].1->0 >= points[front[a]].1->0 ==> points[q].0->0 == points[front[a]].0->0
                    && points[q].1->0 == points[front[a]].1->0
            &&& forall|r: int|
                #![trigger front.contains(r), points[r]]
                0 <= r < points.len() && points[r].0 is Some && points[r].1 is Some && !is_nan_key(points[r].1->0)
                    && !front.contains(r)
                    ==> exists|q: int|
                    0 <= q < points.len() && q != r && #[trigger] points[q].0 is Some && points[q].1 is Some
                        && !is_nan_key(points[q].1->0) && points[q].0->0 >= points[r].0->0 && points[q].1->0
                        >= points[r].1->0
        }),
{
    broadcast use vstd::seq_lib::group_filter_ensures;
    lemma_scan_order(points);
    lemma_scan_members(points);
    lemma_scan_monotone(points);
    lemma_scan_undominated(points);
    let order = pareto_order(points);
    let good = |k: int| improves_y(points, order, k);
    let fk = positions(order.len()).filter(good);
    let scan = pareto_scan(points);
    let last = |k: int| last_of_its_x(points, scan, k);
    lemma_filter_positions_increasing(scan.len(), last);
    let fl = positions(scan.len()).filter(last);
    let front = pareto_spec(points);
    assert(front == fl.map_values(|k: int| scan[k]));
    assert forall|a: int, q: int|
        #![trigger front[a], points[q]]
        0 <= a < front.len() && 0 <= q < points.len() && points[q].0 is Some && points[q].1 is Some
            && !is_nan_key(points[q].1->0) && points[q].0->0 >= points[front[a]].0->0
            && points[q].1->0 >= points[front[a]].1->0 implies points[q].0->0 == points[front[a]].0->0
            && points[q].1->0 == points[front[a]].1->0 by {
        let c = fl[a];
        assert(last(c));
        let kp = fk[c];
        assert(scan[c] == order[kp]);
        assert(front[a] == scan[c]);
        assert(scan.contains(scan[c]));
        if points[q].0->0 > points[front[a]].0->0 {
            assert(points[q].1->0 < points[scan[c]].1->0);
        } else if points[q].1->0 > points[front[a]].1->0 {
            let kq = choose|k: int| 0 <= k < order.len() && #[trigger] order[k] == q;
            if kq < kp {
                assert(is_nan_key(y_of(points, order[kq])) || y_of(points, order[kq]) < y_of(points, order[kp]));
            } else if kq == kp {
                assert(q == front[a]);
            } else {
                lemma_later_higher(points, kp, kq);
                let m = choose|m: int| kp < m <= kq && #[trigger] improves_y(points, order, m) && y_of(points, order[m])
                    >= y_of(points, order[kq]);
                assert(positions(order.len())[m] == m);
                assert(fk.contains(m));
                let b = choose|b: int| 0 <= b < fk.len() && fk[b] == m;
                if b <= c {
                    if b < c {
                        assert(fk[b] < fk[c]);
                    }
                    assert(false);
                }
                assert(c + 1 < scan.len());
                assert(fk[c] < fk[c + 1]);
                if c + 1 < b {
                    assert(fk[c + 1] < fk[b]);
                }
                assert(scan[c + 1] == order[fk[c + 1]]);
                assert(points[order[kp]].0->0 >= points[order[fk[c + 1]]].0->0);
                if fk[c + 1] < m {
                    assert(points[order[fk[c + 1]]].0->0 >= points[order[m]].0->0);
                }
                if m < kq {
                    assert(points[order[m]].0->0 >= points[order[kq]].0->0);
                }
                assert(points[scan[c + 1]].0 == points[scan[c]].0);
                assert(false);
            }
        }
    }
    assert forall|r: int|
        #![trigger front.contains(r), points[r]]
        0 <= r < points.len() && points[r].0 is Some && points[r].1 is Some && !is_nan_key(points[r].1->0)
            && !front.contains(r) implies exists|q: int|
        0 <= q < points.len() && q != r && #[trigger] points[q].0 is Some && points[q].1 is Some
            && !is_nan_key(points[q].1->0) && points[q].0->0 >= points[r].0->0 && points[q].1->0
            >= points[r].1->0 by {
        if scan.contains(r) {
            let c = choose|c: int| 0 <= c < scan.len() && scan[c] == r;
            if last(c) {
                assert(positions(scan.len())[c] == c);
                assert(fl.contains(c));
                let a = choose|a: int| 0 <= a < fl.len() && fl[a] == c;
                assert(front[a] == r);
                assert(front.contains(r));
            }
            let q = scan[c + 1];
            assert(points[q].1->0 > points[r].1->0);
            assert(points[q].0->0 >= points[r].0->0);
            assert(!is_nan_key(points[q].1->0)) by {
                assert(improves_y(points, order, fk[c + 1]));
            }
            assert(points[q].0 is Some);
        } else {
            assert(!pareto_scan(points).contains(r));
        }
    }
}


/// Run `r` recorded both metrics.
pub open spec fn is_candidate(points: Seq<(Option<i64>, Option<i64>)>, r: int) -> bool {
    0 <= r < points.len() && points[r].0 is Some && points[r].1 is Some
}

/// Run `s` dominates run `r`: at least as high on both metrics and higher
/// on one (order keys).
pub open spec fn point_dominates(points: Seq<(Option<i64>, Option<i64>)>, s: int, r: int) -> bool {
    let (sx, sy, rx, ry) = (points[s].0->0, points[s].1->0, points[r].0->0, points[r].1->0);
    sx >= rx && sy >= ry && (sx > rx || sy > ry)
}

/// Runs `s` and `r` recorded the same two values.
pub open spec fn same_point(points: Seq<(Option<i64>, Option<i64>)>, s: int, r: int) -> bool {
    points[s].0->0 == points[r].0->0 && points[s].1->0 == points[r].1->0
}

/// Run `r` is Pareto-optimal: it recorded both metrics, no such run
/// dominates it, and no earlier such run recorded the same two values (one
/// run stands for each group of identical points, the first).
pub open spec fn pareto_optimal(points: Seq<(Option<i64>, Option<i64>)>, r: int) -> bool {
    &&& is_candidate(points, r)
    &&& forall|s: int| #[trigger] is_candidate(points, s) ==> !point_dominates(points, s, r)
    &&& forall|s: int| 0 <= s < r && #[trigger] is_candidate(points, s) ==> !same_point(points, s, r)
}

/// No run that recorded both metrics has a NaN among them.
pub open spec fn no_nan_metrics(points: Seq<(Option<i64>, Option<i64>)>) -> bool {
    forall|i: int| #[trigger] is_candidate(points, i) ==> !is_nan_key(points[i].0->0) && !is_nan_key(points[i].1->0)
}

/// Without NaN, the Pareto front holds exactly the Pareto-optimal runs (and,
/// by `lemma_pareto_front_monotone`, lists them by x from the largest down
/// with y strictly rising).
pub proof fn lemma_pareto_front_is_optimal_set(points: Seq<(Option<i64>, Option<i64>)>)
    requires
        no_nan_metrics(points),
    ensures
        forall|r: int| #[trigger] pareto_spec(points).contains(r) <==> pareto_optimal(points, r),
{
    broadcast use vstd::seq_lib::group_filter_ensures;
    assert forall|i: int|
        0 <= i < points.len() && #[trigger] points[i].0 is Some && points[i].1 is Some implies !is_nan_key(
            points[i].0->0,
        ) by {
        assert(is_candidate(points, i));
    }
    lemma_scan_order(points);
    lemma_scan_members(points);
    lemma_scan_monotone(points);
    lemma_pareto_front_undominated(points);
    let order = pareto_order(points);
    let good = |k: int| improves_y(points, order, k);
    let fk = positions(order.len()).filter(good);
    let scan = pareto_scan(points);
    let last = |k: int| last_of_its_x(points, scan, k);
    lemma_filter_positions_increasing(scan.len(), last);
    let fl = positions(scan.len()).filter(last);
    let front = pareto_spec(points);
    assert(front == fl.map_values(|k: int| scan[k]));
    assert forall|r: int| #[trigger] front.contains(r) implies pareto_optimal(points, r) by {
        let a = choose|a: int| 0 <= a < front.len() && front[a] == r;
        let c = fl[a];
        assert(front[a] == scan[c]);
        let kr = fk[c];
        assert(scan[c] == order[kr]);
        assert(is_candidate(points, r));
        assert forall|q: int| #[trigger] is_candidate(points, q) implies !point_dominates(points, q, r) by {
            assert(points[q].0 is Some);
        }
        assert forall|q: int| 0 <= q < r && #[trigger] is_candidate(points, q) implies !same_point(points, q, r) by {
            if same_point(points, q, r) {
                assert(points[q].0 is Some);
                let kq = choose|k: int| 0 <= k < order.len() && #[trigger] order[k] == q;
                if kq < kr {
                    assert(is_nan_key(y_of(points, order[kq])) || y_of(points, order[kq]) < y_of(points, order[kr]));
                } else if kq > kr {
                    assert(points[order[kr]].0->0 == points[order[kq]].0->0);
                }
            }
        }
    }
    assert forall|r: int| pareto_optimal(points, r) implies #[trigger] front.contains(r) by {
        assert(points[r].0 is Some);
        let kr = choose|k: int| 0 <= k < order.len() && #[trigger] order[k] == r;
        if !good(kr) {
            let j = choose|j: int| 0 <= j < kr && !(is_nan_key(#[trigger] y_of(points, order[j])) || y_of(points, order[j])
                < y_of(points, order[kr]));
            let q = order[j];
            assert(points[order[j]].0->0 >= points[order[kr]].0->0);
            assert(is_candidate(points, q));
            assert(!point_dominates(points, q, r));
            assert(points[order[j]].0->0 == points[order[kr]].0->0);
            assert(q < r);
            assert(same_point(points, q, r));
            assert(false);
        }
        assert(positions(order.len())[kr] == kr);
        assert(fk.contains(kr));
        let c = choose|c: int| 0 <= c < fk.len() && fk[c] == kr;
        assert(scan[c] == r);
        if !last(c) {
            let s2 = scan[c + 1];
            assert(points[scan[c]].1->0 < points[scan[c + 1]].1->0);
            assert(is_candidate(points, s2));
            assert(points[s2].0 == points[r].0);
            assert(point_dominates(points, s2, r));
            assert(false);
        }
        assert(positions(scan.len())[c] == c);
        assert(fl.contains(c));
        let a = choose|a: int| 0 <= a < fl.len() && fl[a] == c;
        assert(front[a] == r);
    }
}

} // verus!
