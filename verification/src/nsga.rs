//! Non-dominated sorting for multi-objective search (NSGA-II).
//!
//! Each run is a row of order keys, one per objective, all maximised. A run
//! dominates another when it is better on some objective and worse on none;
//! NaN is better and worse than nothing. The runs are peeled into fronts:
//! the first front holds the runs that nothing dominates, each later front
//! the runs whose dominators have all been placed, the last of them in the
//! front before.

use vstd::prelude::*;
use crate::store::{is_nan_key, key_greater, positions};

verus! {

/// How two runs compare across all objectives.
#[derive(Debug, PartialEq, Eq)]
pub enum Dominance {
    Left,
    Right,
    Neither,
}

/// `a` is better than `b` on some objective.
pub open spec fn better_somewhere(a: Seq<i64>, b: Seq<i64>) -> bool {
    exists|o: int| 0 <= o < a.len() && #[trigger] key_greater(a[o], b[o])
}

/// `a` dominates `b`: better on some objective and worse on none.
pub open spec fn dominates(a: Seq<i64>, b: Seq<i64>) -> bool {
    better_somewhere(a, b) && !better_somewhere(b, a)
}

/// Which of two runs dominates the other, if either does.
pub open spec fn dominance_spec(a: Seq<i64>, b: Seq<i64>) -> Dominance {
    if dominates(a, b) {
        Dominance::Left
    } else if dominates(b, a) {
        Dominance::Right
    } else {
        Dominance::Neither
    }
}

fn key_gt(a: i64, b: i64) -> (r: bool)
    ensures
        r == key_greater(a, b),
{
    !(a > 0x7FF0_0000_0000_0000 || a < -0x7FF0_0000_0000_0000) && !(b > 0x7FF0_0000_0000_0000 || b
        < -0x7FF0_0000_0000_0000) && a > b
}

/// Compares two runs objective by objective.
pub fn dominance(a: &[i64], b: &[i64]) -> (r: Dominance)
    requires
        a.len() == b.len(),
    ensures
        r == dominance_spec(a@, b@),
{
    let mut a_better = false;
    let mut b_better = false;
    let mut o: usize = 0;
    while o < a.len()
        invariant
            o <= a.len(),
            a.len() == b.len(),
            a_better == exists|p: int| 0 <= p < o && #[trigger] key_greater(a@[p], b@[p]),
            b_better == exists|p: int| 0 <= p < o && #[trigger] key_greater(b@[p], a@[p]),
        decreases a.len() - o,
    {
        if key_gt(a[o], b[o]) {
            a_better = true;
        } else if key_gt(b[o], a[o]) {
            b_better = true;
        }
        o += 1;
    }
    if a_better && !b_better {
        Dominance::Left
    } else if b_better && !a_better {
        Dominance::Right
    } else {
        Dominance::Neither
    }
}

/// The runs' rows of keys.
pub open spec fn rows_of(points: Seq<Vec<i64>>) -> Seq<Seq<i64>> {
    points.map_values(|v: Vec<i64>| v@)
}

/// Run `j` is dominated by no run.
pub open spec fn undominated(rows: Seq<Seq<i64>>) -> spec_fn(int) -> bool {
    |j: int| forall|i: int| 0 <= i < rows.len() ==> !dominates(#[trigger] rows[i], rows[j])
}

/// Every run that dominates run `j` has been placed.
pub open spec fn dominators_placed(rows: Seq<Seq<i64>>, j: int, placed: Set<int>) -> bool {
    forall|i: int| 0 <= i < rows.len() && dominates(rows[i], rows[j]) ==> #[trigger] placed.contains(i)
}

/// `cur[a]` is the last run of `cur` that dominates run `j`.
pub open spec fn last_dominator(rows: Seq<Seq<i64>>, cur: Seq<int>, j: int, a: int) -> bool {
    &&& dominates(rows[cur[a]], rows[j])
    &&& forall|b: int| a < b < cur.len() ==> !dominates(rows[#[trigger] cur[b]], rows[j])
}

/// The runs that join the next front right after `cur[a]` is done with:
/// not placed yet, every dominator placed, `cur[a]` the last of them in
/// the current front.
pub open spec fn joins_after(rows: Seq<Seq<i64>>, cur: Seq<int>, placed: Set<int>, a: int) -> spec_fn(int) -> bool {
    |j: int| !placed.contains(j) && dominators_placed(rows, j, placed) && last_dominator(rows, cur, j, a)
}

/// The next front, as far as the first `a` runs of the current front go.
pub open spec fn next_front(rows: Seq<Seq<i64>>, cur: Seq<int>, placed: Set<int>, a: nat) -> Seq<int>
    decreases a,
{
    if a == 0 {
        Seq::empty()
    } else {
        next_front(rows, cur, placed, (a - 1) as nat) + positions(rows.len()).filter(
            joins_after(rows, cur, placed, a - 1),
        )
    }
}

/// Front `k`, and the runs placed in fronts `0..=k`.
pub open spec fn level(rows: Seq<Seq<i64>>, k: nat) -> (Seq<int>, Set<int>)
    decreases k,
{
    if k == 0 {
        let first = positions(rows.len()).filter(undominated(rows));
        (first, first.to_set())
    } else {
        let prev = level(rows, (k - 1) as nat);
        let next = next_front(rows, prev.0, prev.1, prev.0.len());
        (next, prev.1 + next.to_set())
    }
}

/// The fronts from front `k` on, up to the first empty one (at most `fuel`).
pub open spec fn fronts_from(rows: Seq<Seq<i64>>, k: nat, fuel: nat) -> Seq<Seq<int>>
    decreases fuel,
{
    if fuel == 0 || level(rows, k).0.len() == 0 {
        Seq::empty()
    } else {
        seq![level(rows, k).0] + fronts_from(rows, k + 1, (fuel - 1) as nat)
    }
}

/// The non-dominated fronts of the runs.
pub open spec fn sorted_fronts(rows: Seq<Seq<i64>>) -> Seq<Seq<int>> {
    fronts_from(rows, 0, rows.len() + 1)
}

/// Positions as integers.
pub open spec fn ints(v: Seq<usize>) -> Seq<int> {
    v.map_values(|i: usize| i as int)
}

/// Fronts of positions as integers.
pub open spec fn fronts_ints(v: Seq<Vec<usize>>) -> Seq<Seq<int>> {
    v.map_values(|f: Vec<usize>| ints(f@))
}


/// Row `i` of `dm` says which runs run `i` dominates.
pub open spec fn dominance_table(dm: Seq<Vec<bool>>, rows: Seq<Seq<i64>>) -> bool {
    &&& dm.len() == rows.len()
    &&& forall|i: int| 0 <= i < rows.len() ==> #[trigger] dm[i]@.len() == rows.len()
    &&& forall|i: int, j: int|
        0 <= i < rows.len() && 0 <= j < rows.len() ==> #[trigger] dm[i]@[j] == dominates(rows[i], rows[j])
}

/// All rows have the same number of objectives.
pub open spec fn same_width(points: Seq<Vec<i64>>) -> bool {
    forall|i: int, j: int|
        0 <= i < points.len() && 0 <= j < points.len() ==> #[trigger] points[i].len() == #[trigger] points[j].len()
}

fn dominance_matrix(points: &[Vec<i64>]) -> (dm: Vec<Vec<bool>>)
    requires
        same_width(points@),
    ensures
        dominance_table(dm@, rows_of(points@)),
{
    let ghost rows = rows_of(points@);
    let n = points.len();
    let mut dm: Vec<Vec<bool>> = Vec::new();
    let mut i: usize = 0;
    while i < n
        invariant
            i <= n,
            n == points.len(),
            rows == rows_of(points@),
            same_width(points@),
            dm@.len() == i,
            forall|a: int| 0 <= a < i ==> #[trigger] dm@[a]@.len() == n,
            forall|a: int, b: int| 0 <= a < i && 0 <= b < n ==> #[trigger] dm@[a]@[b] == dominates(rows[a], rows[b]),
        decreases n - i,
    {
        let mut row: Vec<bool> = Vec::new();
        let mut j: usize = 0;
        while j < n
            invariant
                i < n,
                j <= n,
                n == points.len(),
                rows == rows_of(points@),
                same_width(points@),
                row@.len() == j,
                forall|b: int| 0 <= b < j ==> #[trigger] row@[b] == dominates(rows[i as int], rows[b]),
            decreases n - j,
        {
            assert(points@[i as int].len() == points@[j as int].len());
            let d = dominance(points[i].as_slice(), points[j].as_slice());
            assert(rows[i as int] == points@[i as int]@);
            assert(rows[j as int] == points@[j as int]@);
            let left = match d {
                Dominance::Left => true,
                _ => false,
            };
            row.push(left);
            j += 1;
        }
        dm.push(row);
        i += 1;
    }
    dm
}

fn first_front(dm: &Vec<Vec<bool>>, Ghost(rows): Ghost<Seq<Seq<i64>>>) -> (r: (Vec<usize>, Vec<bool>))
    requires
        dominance_table(dm@, rows),
    ensures
        ints(r.0@) == level(rows, 0).0,
        forall|t: int| 0 <= t < r.0@.len() ==> #[trigger] r.0@[t] < rows.len(),
        r.1@.len() == rows.len(),
        forall|x: int| 0 <= x < rows.len() ==> (#[trigger] r.1@[x] <==> level(rows, 0).1.contains(x)),
        level(rows, 0).1.finite(),
        level(rows, 0).1.len() == r.0@.len(),
        forall|x: int| #[trigger] level(rows, 0).1.contains(x) ==> 0 <= x < rows.len(),
{
    broadcast use vstd::seq_lib::group_filter_ensures;
    let n = dm.len();
    let ghost undom = undominated(rows);
    let mut out: Vec<usize> = Vec::new();
    let mut placed: Vec<bool> = Vec::new();
    let ghost mut gs: Set<int> = Set::empty();
    let mut j: usize = 0;
    assert(ints(out@) =~= positions(0).filter(undom));
    while j < n
        invariant
            j <= n,
            n == rows.len(),
            dominance_table(dm@, rows),
            undom == undominated(rows),
            ints(out@) == positions(j as nat).filter(undom),
            forall|t: int| 0 <= t < out@.len() ==> #[trigger] out@[t] < j,
            placed@.len() == j,
            forall|x: int| 0 <= x < j ==> (#[trigger] placed@[x] <==> undom(x)),
            gs == ints(out@).to_set(),
            gs.finite(),
            gs.len() == out@.len(),
        decreases n - j,
    {
        let mut free = true;
        let mut i: usize = 0;
        while i < n
            invariant
                i <= n,
                j < n,
                n == rows.len(),
                dominance_table(dm@, rows),
                free == forall|a: int| 0 <= a < i ==> !dominates(#[trigger] rows[a], rows[j as int]),
            decreases n - i,
        {
            if dm[i][j] {
                free = false;
            }
            i += 1;
        }
        assert(free == undom(j as int));
        let ghost before = ints(out@);
        proof {
            assert(positions((j + 1) as nat) =~= positions(j as nat).push(j as int));
            positions(j as nat).lemma_filter_push(j as int, undom);
        }
        if free {
            proof {
                if gs.contains(j as int) {
                    let t = choose|t: int| 0 <= t < before.len() && before[t] == j as int;
                    assert(out@[t] < j);
                }
            }
            out.push(j);
            proof {
                assert(ints(out@) =~= before.push(j as int));
                lemma_push_to_set(before, j as int);
                assert(ints(out@).to_set() =~= gs.insert(j as int));
                gs = gs.insert(j as int);
            }
        } else {
            assert(ints(out@) =~= before);
        }
        placed.push(free);
        j += 1;
    }
    proof {
        assert(positions(n as nat) == positions(rows.len()));
        assert forall|x: int| 0 <= x < rows.len() implies (#[trigger] placed@[x] <==> level(rows, 0).1.contains(x)) by {
            let first = positions(rows.len()).filter(undom);
            if undom(x) {
                assert(positions(rows.len())[x] == x);
                assert(first.contains(x));
            }
            if first.contains(x) {
                let t = choose|t: int| 0 <= t < first.len() && first[t] == x;
                assert(undom(first[t]));
            }
        }
        assert forall|x: int| #[trigger] level(rows, 0).1.contains(x) implies 0 <= x < rows.len() by {
            let first = positions(rows.len()).filter(undom);
            let t = choose|t: int| 0 <= t < first.len() && first[t] == x;
            assert(ints(out@)[t] == out@[t] as int);
        }
    }
    (out, placed)
}


/// Pushing `x` adds it to the set of the sequence's items.
proof fn lemma_push_to_set(s: Seq<int>, x: int)
    ensures
        s.push(x).to_set() == s.to_set().insert(x),
{
    assert forall|y: int| #[trigger] s.push(x).to_set().contains(y) <==> s.to_set().insert(x).contains(y) by {
        if s.to_set().contains(y) {
            let t = choose|t: int| 0 <= t < s.len() && s[t] == y;
            assert(s.push(x)[t] == y);
        }
        if y == x {
            assert(s.push(x)[s.len() as int] == y);
        }
        if s.push(x).contains(y) && y != x {
            let t = choose|t: int| 0 <= t < s.len() + 1 && s.push(x)[t] == y;
            assert(s[t] == y);
        }
    }
    assert(s.push(x).to_set() =~= s.to_set().insert(x));
}


/// Which bucket of the next front run `x` falls in, as recorded in `joins`.
spec fn joins_ok(rows: Seq<Seq<i64>>, c: Seq<int>, p: Set<int>, v: Option<usize>, x: int) -> bool {
    match v {
        Some(a) => a < c.len() && joins_after(rows, c, p, a as int)(x),
        None => forall|a: int| 0 <= a < c.len() ==> !#[trigger] joins_after(rows, c, p, a)(x),
    }
}

fn place_next(
    dm: &Vec<Vec<bool>>,
    cur: &Vec<usize>,
    placed: &mut Vec<bool>,
    Ghost(rows): Ghost<Seq<Seq<i64>>>,
    Ghost(p): Ghost<Set<int>>,
) -> (nxt: Vec<usize>)
    requires
        dominance_table(dm@, rows),
        old(placed)@.len() == rows.len(),
        forall|x: int| 0 <= x < rows.len() ==> (#[trigger] old(placed)@[x] <==> p.contains(x)),
        forall|x: int| #[trigger] p.contains(x) ==> 0 <= x < rows.len(),
        p.finite(),
        forall|t: int| 0 <= t < cur@.len() ==> #[trigger] cur@[t] < rows.len(),
    ensures
        ints(nxt@) == next_front(rows, ints(cur@), p, cur@.len()),
        final(placed)@.len() == rows.len(),
        forall|x: int| 0 <= x < rows.len() ==> (#[trigger] final(placed)@[x] <==> (p + ints(nxt@).to_set()).contains(x)),
        forall|t: int| 0 <= t < nxt@.len() ==> #[trigger] nxt@[t] < rows.len(),
        (p + ints(nxt@).to_set()).finite(),
        (p + ints(nxt@).to_set()).len() == p.len() + nxt@.len(),
{
    broadcast use vstd::seq_lib::group_filter_ensures;
    let n = dm.len();
    let ghost c = ints(cur@);
    let mut joins: Vec<Option<usize>> = Vec::new();
    let mut j: usize = 0;
    while j < n
        invariant
            j <= n,
            n == rows.len(),
            dominance_table(dm@, rows),
            c == ints(cur@),
            placed@.len() == n,
            forall|x: int| 0 <= x < n ==> (#[trigger] placed@[x] <==> p.contains(x)),
            forall|t: int| 0 <= t < cur@.len() ==> #[trigger] cur@[t] < n,
            joins@.len() == j,
            forall|x: int| 0 <= x < j ==> joins_ok(rows, c, p, #[trigger] joins@[x], x),
        decreases n - j,
    {
        let mut v: Option<usize> = None;
        if !placed[j] {
            let mut ok = true;
            let mut i: usize = 0;
            while i < n
                invariant
                    i <= n,
                    j < n,
                    n == rows.len(),
                    dominance_table(dm@, rows),
                    placed@.len() == n,
                    forall|x: int| 0 <= x < n ==> (#[trigger] placed@[x] <==> p.contains(x)),
                    ok == forall|a: int| 0 <= a < i && dominates(rows[a], rows[j as int]) ==> #[trigger] p.contains(a),
                decreases n - i,
            {
                if dm[i][j] && !placed[i] {
                    ok = false;
                }
                i += 1;
            }
            if ok {
                let mut last: Option<usize> = None;
                let mut a: usize = 0;
                while a < cur.len()
                    invariant
                        a <= cur.len(),
                        j < n,
                        n == rows.len(),
                        dominance_table(dm@, rows),
                        c == ints(cur@),
                        forall|t: int| 0 <= t < cur@.len() ==> #[trigger] cur@[t] < n,
                        match last {
                            Some(x) => x < a && dominates(rows[c[x as int]], rows[j as int]) && forall|b: int|
                                x < b < a ==> !dominates(rows[#[trigger] c[b]], rows[j as int]),
                            None => forall|b: int| 0 <= b < a ==> !dominates(rows[#[trigger] c[b]], rows[j as int]),
                        },
                    decreases cur.len() - a,
                {
                    let at = cur[a];
                    assert(c[a as int] == at as int);
                    if dm[at][j] {
                        last = Some(a);
                    }
                    a += 1;
                }
                v = last;
            }
        }
        proof {
            let x = j as int;
            match v {
                Some(a) => {
                    assert(last_dominator(rows, c, x, a as int));
                    assert(joins_after(rows, c, p, a as int)(x));
                },
                None => {
                    assert forall|a: int| 0 <= a < c.len() implies !#[trigger] joins_after(rows, c, p, a)(x) by {
                        if joins_after(rows, c, p, a)(x) {
                            assert(!placed@[x]);
                            assert(dominates(rows[c[a]], rows[x]));
                        }
                    }
                },
            }
        }
        joins.push(v);
        j += 1;
    }
    let mut nxt: Vec<usize> = Vec::new();
    let ghost mut gs: Set<int> = p;
    let mut a: usize = 0;
    assert(ints(nxt@) =~= Seq::<int>::empty());
    assert(p + ints(nxt@).to_set() =~= p);
    while a < cur.len()
        invariant
            a <= cur.len(),
            n == rows.len(),
            c == ints(cur@),
            c.len() == cur@.len(),
            joins@.len() == n,
            forall|x: int| 0 <= x < n ==> joins_ok(rows, c, p, #[trigger] joins@[x], x),
            ints(nxt@) == next_front(rows, c, p, a as nat),
            placed@.len() == n,
            forall|x: int| 0 <= x < n ==> (#[trigger] placed@[x] <==> gs.contains(x)),
            gs == p + ints(nxt@).to_set(),
            gs.finite(),
            gs.len() == p.len() + nxt@.len(),
            forall|x: int| #[trigger] p.contains(x) ==> 0 <= x < n,
            forall|t: int|
                0 <= t < nxt@.len() ==> #[trigger] nxt@[t] < n && joins@[nxt@[t] as int] is Some
                    && joins@[nxt@[t] as int]->0 < a,
        decreases cur.len() - a,
    {
        let ghost keep = joins_after(rows, c, p, a as int);
        let ghost base = next_front(rows, c, p, a as nat);
        let mut j: usize = 0;
        assert(ints(nxt@) =~= base + positions(0).filter(keep));
        while j < n
            invariant
                a < cur.len(),
                j <= n,
                n == rows.len(),
                c == ints(cur@),
                c.len() == cur@.len(),
                keep == joins_after(rows, c, p, a as int),
                joins@.len() == n,
                forall|x: int| 0 <= x < n ==> joins_ok(rows, c, p, #[trigger] joins@[x], x),
                ints(nxt@) == base + positions(j as nat).filter(keep),
                placed@.len() == n,
                forall|x: int| 0 <= x < n ==> (#[trigger] placed@[x] <==> gs.contains(x)),
                gs == p + ints(nxt@).to_set(),
                gs.finite(),
                gs.len() == p.len() + nxt@.len(),
                forall|x: int| #[trigger] p.contains(x) ==> 0 <= x < n,
                forall|t: int|
                    0 <= t < nxt@.len() ==> #[trigger] nxt@[t] < n && joins@[nxt@[t] as int] is Some && (
                    joins@[nxt@[t] as int]->0 < a || (joins@[nxt@[t] as int]->0 == a && nxt@[t] < j)),
            decreases n - j,
        {
            let hit = match joins[j] {
                Some(b) => b == a,
                None => false,
            };
            let ghost before = ints(nxt@);
            proof {
                let x = j as int;
                assert(joins_ok(rows, c, p, joins@[x], x));
                if keep(x) {
                    match joins@[x] {
                        Some(b) => {
                            if b as int != a as int {
                                assert(joins_after(rows, c, p, b as int)(x));
                                if (b as int) < (a as int) {
                                    assert(!dominates(rows[c[a as int]], rows[x]));
                                } else {
                                    assert(!dominates(rows[c[b as int]], rows[x]));
                                }
                            }
                        },
                        None => {},
                    }
                }
                assert(hit == keep(x));
                assert(positions((j + 1) as nat) =~= positions(j as nat).push(x));
                positions(j as nat).lemma_filter_push(x, keep);
            }
            if hit {
                proof {
                    let x = j as int;
                    assert(!p.contains(x));
                    if before.contains(x) {
                        let t = choose|t: int| 0 <= t < before.len() && before[t] == x;
                        assert(nxt@[t] as int == x);
                    }
                    assert(!gs.contains(x));
                }
                nxt.push(j);
                placed.set(j, true);
                proof {
                    lemma_push_to_set(before, j as int);
                    assert(ints(nxt@) =~= before.push(j as int));
                    assert(p + ints(nxt@).to_set() =~= gs.insert(j as int));
                    gs = gs.insert(j as int);
                    assert(ints(nxt@) =~= base + positions((j + 1) as nat).filter(keep));
                }
            } else {
                assert(ints(nxt@) =~= base + positions((j + 1) as nat).filter(keep));
            }
            j += 1;
        }
        assert(positions(n as nat) == positions(rows.len()));
        assert(next_front(rows, c, p, (a + 1) as nat) == base + positions(rows.len()).filter(keep));
        a += 1;
    }
    nxt
}


/// Peels the runs into non-dominated fronts, by position: the first front
/// holds the runs that no run dominates, in order; each later front the runs
/// not placed yet whose dominators are all placed, grouped by the last of
/// their dominators in the front before (in that front's order), each group
/// in order. Runs caught in a cycle of domination (possible only through
/// NaN) and the runs they dominate are left out.
pub fn non_dominated_sort(points: &[Vec<i64>]) -> (r: Vec<Vec<usize>>)
    requires
        same_width(points@),
    ensures
        fronts_ints(r@) == sorted_fronts(rows_of(points@)),
{
    let ghost rows = rows_of(points@);
    let n = points.len();
    let dm = dominance_matrix(points);
    let (first, placed0) = first_front(&dm, Ghost(rows));
    let mut placed = placed0;
    let mut count: usize = first.len();
    let mut current = first;
    let mut fronts: Vec<Vec<usize>> = Vec::new();
    let ghost mut k: nat = 0;
    let ghost mut p: Set<int> = level(rows, 0).1;
    proof {
        vstd::set_lib::lemma_int_range(0, n as int);
        vstd::set_lib::lemma_len_subset(p, vstd::set_lib::set_int_range(0, n as int));
        assert(fronts_ints(fronts@) + fronts_from(rows, 0, (n + 1) as nat) =~= sorted_fronts(rows));
    }
    while current.len() > 0
        invariant
            n == rows.len(),
            dominance_table(dm@, rows),
            ints(current@) == level(rows, k).0,
            forall|t: int| 0 <= t < current@.len() ==> #[trigger] current@[t] < n,
            p == level(rows, k).1,
            p.finite(),
            count == p.len(),
            count <= n,
            forall|x: int| #[trigger] p.contains(x) ==> 0 <= x < n,
            placed@.len() == n,
            forall|x: int| 0 <= x < n ==> (#[trigger] placed@[x] <==> p.contains(x)),
            k + (if current@.len() > 0 { 1int } else { 0int }) <= count,
            fronts_ints(fronts@) + fronts_from(rows, k, (n + 1 - k) as nat) == sorted_fronts(rows),
        decreases (n - count) + current@.len(),
    {
        let ghost before = fronts_ints(fronts@);
        let nxt = place_next(&dm, &current, &mut placed, Ghost(rows), Ghost(p));
        proof {
            assert(ints(current@).len() == current@.len());
            assert(level(rows, k + 1) == (ints(nxt@), p + ints(nxt@).to_set()));
            assert(fronts_from(rows, k, (n + 1 - k) as nat) == seq![level(rows, k).0] + fronts_from(
                rows,
                k + 1,
                (n - k) as nat,
            ));
            let p2 = p + ints(nxt@).to_set();
            assert forall|x: int| #[trigger] p2.contains(x) implies 0 <= x < n by {
                if !p.contains(x) {
                    let t = choose|t: int| 0 <= t < ints(nxt@).len() && ints(nxt@)[t] == x;
                    assert(nxt@[t] < n);
                }
            }
            vstd::set_lib::lemma_int_range(0, n as int);
            vstd::set_lib::lemma_len_subset(p2, vstd::set_lib::set_int_range(0, n as int));
        }
        let grown = nxt.len();
        fronts.push(current);
        proof {
            assert(fronts_ints(fronts@) =~= before.push(level(rows, k).0));
            assert(fronts_ints(fronts@) + fronts_from(rows, k + 1, (n + 1 - (k + 1)) as nat) =~= before + (seq![
                level(rows, k).0,
            ] + fronts_from(rows, k + 1, (n - k) as nat)));
            p = p + ints(nxt@).to_set();
            k = k + 1;
        }
        count = count + grown;
        current = nxt;
    }
    proof {
        assert(fronts_from(rows, k, (n + 1 - k) as nat) =~= Seq::<Seq<int>>::empty());
        assert(fronts_ints(fronts@) =~= fronts_ints(fronts@) + fronts_from(rows, k, (n + 1 - k) as nat));
    }
    fronts
}


/// Every run of the next front joins it after some run of the current front.
proof fn lemma_next_front_members(rows: Seq<Seq<i64>>, cur: Seq<int>, placed: Set<int>, m: nat)
    ensures
        forall|x: int|
            #[trigger] next_front(rows, cur, placed, m).contains(x) ==> 0 <= x < rows.len() && exists|a: int|
                0 <= a < m && #[trigger] joins_after(rows, cur, placed, a)(x),
    decreases m,
{
    broadcast use vstd::seq_lib::group_filter_ensures;
    if m > 0 {
        lemma_next_front_members(rows, cur, placed, (m - 1) as nat);
        let prev = next_front(rows, cur, placed, (m - 1) as nat);
        let keep = joins_after(rows, cur, placed, m - 1);
        let add = positions(rows.len()).filter(keep);
        assert forall|x: int| #[trigger] next_front(rows, cur, placed, m).contains(x) implies 0 <= x < rows.len()
            && exists|a: int| 0 <= a < m && #[trigger] joins_after(rows, cur, placed, a)(x) by {
            let s = prev + add;
            let t = choose|t: int| 0 <= t < s.len() && s[t] == x;
            if t < prev.len() {
                assert(prev[t] == x);
                assert(prev.contains(x));
            } else {
                let u = t - prev.len();
                assert(add[u] == x);
                assert(keep(add[u]));
                assert(add.contains(x));
                positions(rows.len()).lemma_filter_contains_rev(keep, x);
                let w = choose|w: int| 0 <= w < rows.len() && positions(rows.len())[w] == x;
                assert(joins_after(rows, cur, placed, m - 1)(x));
            }
        }
    }
}

/// The runs placed through front `k` are those of fronts `0..=k`.
proof fn lemma_placed_runs(rows: Seq<Seq<i64>>, k: nat)
    ensures
        forall|y: int|
            #[trigger] level(rows, k).1.contains(y) <==> exists|m: nat| m <= k && #[trigger] level(rows, m).0.contains(y),
    decreases k,
{
    if k == 0 {
        assert forall|y: int| #[trigger] level(rows, k).1.contains(y) <==> exists|m: nat|
            m <= k && #[trigger] level(rows, m).0.contains(y) by {
            if level(rows, k).1.contains(y) {
                assert(level(rows, 0).0.contains(y));
            }
        }
    } else {
        lemma_placed_runs(rows, (k - 1) as nat);
        let prev = level(rows, (k - 1) as nat);
        assert(level(rows, k).1 == prev.1 + level(rows, k).0.to_set());
        assert forall|y: int| #[trigger] level(rows, k).1.contains(y) <==> exists|m: nat|
            m <= k && #[trigger] level(rows, m).0.contains(y) by {
            if level(rows, k).1.contains(y) {
                if prev.1.contains(y) {
                    let m = choose|m: nat| m <= k - 1 && #[trigger] level(rows, m).0.contains(y);
                    assert(level(rows, m).0.contains(y));
                } else {
                    assert(level(rows, k).0.contains(y));
                }
            }
            if exists|m: nat| m <= k && #[trigger] level(rows, m).0.contains(y) {
                let m = choose|m: nat| m <= k && #[trigger] level(rows, m).0.contains(y);
                if m < k {
                    assert(prev.1.contains(y));
                } else {
                    assert(level(rows, k).0.to_set().contains(y));
                }
            }
        }
    }
}

/// What holds of each run of front `k`.
proof fn lemma_front_members(rows: Seq<Seq<i64>>, k: nat)
    ensures
        forall|x: int|
            #[trigger] level(rows, k).0.contains(x) ==> {
                &&& 0 <= x < rows.len()
                &&& k == 0 ==> undominated(rows)(x)
                &&& k > 0 ==> !level(rows, (k - 1) as nat).1.contains(x)
                &&& k > 0 ==> dominators_placed(rows, x, level(rows, (k - 1) as nat).1)
                &&& k > 0 ==> exists|y: int|
                    #[trigger] level(rows, (k - 1) as nat).0.contains(y) && dominates(rows[y], rows[x])
            },
{
    broadcast use vstd::seq_lib::group_filter_ensures;
    if k == 0 {
        assert forall|x: int| #[trigger] level(rows, k).0.contains(x) implies 0 <= x < rows.len() && undominated(
            rows,
        )(x) by {
            let first = positions(rows.len()).filter(undominated(rows));
            let t = choose|t: int| 0 <= t < first.len() && first[t] == x;
            assert(undominated(rows)(first[t]));
            assert(first.contains(x));
            positions(rows.len()).lemma_filter_contains_rev(undominated(rows), x);
            let w = choose|w: int| 0 <= w < rows.len() && positions(rows.len())[w] == x;
        }
    } else {
        let prev = level(rows, (k - 1) as nat);
        lemma_next_front_members(rows, prev.0, prev.1, prev.0.len());
        assert forall|x: int| #[trigger] level(rows, k).0.contains(x) implies {
            &&& 0 <= x < rows.len()
            &&& !prev.1.contains(x)
            &&& dominators_placed(rows, x, prev.1)
            &&& exists|y: int| #[trigger] prev.0.contains(y) && dominates(rows[y], rows[x])
        } by {
            assert(next_front(rows, prev.0, prev.1, prev.0.len()).contains(x));
            let a = choose|a: int| 0 <= a < prev.0.len() && #[trigger] joins_after(rows, prev.0, prev.1, a)(x);
            assert(prev.0.contains(prev.0[a]));
        }
    }
}

/// Front `a` of the fronts from `k` on is front `k + a`.
proof fn lemma_fronts_are_levels(rows: Seq<Seq<i64>>, k: nat, fuel: nat)
    ensures
        forall|a: int|
            0 <= a < fronts_from(rows, k, fuel).len() ==> #[trigger] fronts_from(rows, k, fuel)[a] == level(
                rows,
                (k + a) as nat,
            ).0,
    decreases fuel,
{
    if fuel > 0 && level(rows, k).0.len() > 0 {
        lemma_fronts_are_levels(rows, k + 1, (fuel - 1) as nat);
        let rest = fronts_from(rows, k + 1, (fuel - 1) as nat);
        assert forall|a: int| 0 <= a < fronts_from(rows, k, fuel).len() implies #[trigger] fronts_from(
            rows,
            k,
            fuel,
        )[a] == level(rows, (k + a) as nat).0 by {
            if a > 0 {
                assert(fronts_from(rows, k, fuel)[a] == rest[a - 1]);
                assert((k + 1 + (a - 1)) as nat == (k + a) as nat);
            }
        }
    }
}

/// Non-dominated sorting layers the runs by dominance: the first front is
/// exactly the runs that no run dominates; no run is in two fronts; a run
/// that dominates a run of some front lies in an earlier front; and every
/// run of a later front is dominated by a run of the front just before it.
pub proof fn lemma_fronts_respect_dominance(rows: Seq<Seq<i64>>)
    ensures
        ({
            let f = sorted_fronts(rows);
            &&& forall|x: int|
                0 <= x < rows.len() ==> (#[trigger] undominated(rows)(x) <==> (f.len() > 0 && f[0].contains(x)))
            &&& forall|a: int, b: int, x: int|
                #![trigger f[a].contains(x), f[b].contains(x)]
                0 <= a < f.len() && 0 <= b < f.len() && f[a].contains(x) && f[b].contains(x) ==> a == b
            &&& forall|a: int, b: int, x: int, y: int|
                #![trigger f[a].contains(x), f[b].contains(y), dominates(rows[y], rows[x])]
                0 <= a < f.len() && 0 <= b < f.len() && f[a].contains(x) && f[b].contains(y) && dominates(
                    rows[y],
                    rows[x],
                ) ==> b < a
            &&& forall|a: int, x: int|
                #![trigger f[a].contains(x)]
                0 < a < f.len() && f[a].contains(x) ==> exists|y: int|
                    #[trigger] f[a - 1].contains(y) && dominates(rows[y], rows[x])
        }),
{
    broadcast use vstd::seq_lib::group_filter_ensures;
    let f = sorted_fronts(rows);
    let n1 = (rows.len() + 1) as nat;
    lemma_fronts_are_levels(rows, 0, n1);
    assert forall|x: int| 0 <= x < rows.len() implies (#[trigger] undominated(rows)(x) <==> (f.len() > 0
        && f[0].contains(x))) by {
        lemma_front_members(rows, 0);
        let first = positions(rows.len()).filter(undominated(rows));
        if undominated(rows)(x) {
            assert(positions(rows.len())[x] == x);
            assert(first.contains(x));
            assert(f[0] == level(rows, 0).0);
        }
        if f.len() > 0 && f[0].contains(x) {
            assert(f[0] == level(rows, 0).0);
        }
    }
    // A run of front `b` is placed through front `m` exactly when `b <= m`.
    assert forall|a: int, b: int, x: int|
        0 <= a < f.len() && 0 <= b < f.len() && f[a].contains(x) && f[b].contains(x) implies a == b by {
        assert(f[a] == level(rows, a as nat).0);
        assert(f[b] == level(rows, b as nat).0);
        if a != b {
            let (lo, hi) = if a < b { (a, b) } else { (b, a) };
            lemma_front_members(rows, hi as nat);
            lemma_placed_runs(rows, (hi - 1) as nat);
            assert(level(rows, lo as nat).0.contains(x));
            assert(level(rows, (hi - 1) as nat).1.contains(x));
        }
    }
    assert forall|a: int, b: int, x: int, y: int|
        0 <= a < f.len() && 0 <= b < f.len() && f[a].contains(x) && f[b].contains(y) && dominates(
            rows[y],
            rows[x],
        ) implies b < a by {
        assert(f[a] == level(rows, a as nat).0);
        assert(f[b] == level(rows, b as nat).0);
        lemma_front_members(rows, a as nat);
        lemma_front_members(rows, b as nat);
        if a == 0 {
            assert(0 <= y < rows.len());
            assert(!dominates(rows[y], rows[x]));
        } else {
            let p = level(rows, (a - 1) as nat).1;
            assert(0 <= y < rows.len());
            assert(p.contains(y));
            lemma_placed_runs(rows, (a - 1) as nat);
            let m = choose|m: nat| m <= a - 1 && #[trigger] level(rows, m).0.contains(y);
            if b >= a {
                lemma_front_members(rows, b as nat);
                if b > m {
                    lemma_placed_runs(rows, (b - 1) as nat);
                    assert(level(rows, (b - 1) as nat).1.contains(y));
                }
            }
        }
    }
    assert forall|a: int, x: int| 0 < a < f.len() && f[a].contains(x) implies exists|y: int|
        #[trigger] f[a - 1].contains(y) && dominates(rows[y], rows[x]) by {
        assert(f[a] == level(rows, a as nat).0);
        assert(f[a - 1] == level(rows, (a - 1) as nat).0);
        lemma_front_members(rows, a as nat);
    }
}


/// The fronts from `k` on stop at the first empty front, or when the fuel
/// runs out.
proof fn lemma_fronts_stop(rows: Seq<Seq<i64>>, k: nat, fuel: nat)
    ensures
        fronts_from(rows, k, fuel).len() <= fuel,
        forall|a: nat| a < fronts_from(rows, k, fuel).len() ==> #[trigger] level(rows, k + a).0.len() > 0,
        fronts_from(rows, k, fuel).len() < fuel ==> level(rows, k + fronts_from(rows, k, fuel).len()).0.len() == 0,
    decreases fuel,
{
    if fuel > 0 && level(rows, k).0.len() > 0 {
        lemma_fronts_stop(rows, k + 1, (fuel - 1) as nat);
        let len = fronts_from(rows, k, fuel).len();
        assert(len == 1 + fronts_from(rows, k + 1, (fuel - 1) as nat).len());
        assert forall|a: nat| a < len implies #[trigger] level(rows, k + a).0.len() > 0 by {
            if a > 0 {
                let b = (a - 1) as nat;
                assert(level(rows, k + 1 + b).0.len() > 0);
                assert(k + 1 + b == k + a);
            }
        }
        assert(k + 1 + fronts_from(rows, k + 1, (fuel - 1) as nat).len() == k + len);
    }
}

/// While every front so far is non-empty, each adds new runs: through front
/// `k` at least `k + 1` runs are placed, all of them among the runs.
proof fn lemma_placed_grow(rows: Seq<Seq<i64>>, k: nat)
    requires
        forall|m: nat| m <= k ==> #[trigger] level(rows, m).0.len() > 0,
    ensures
        level(rows, k).1.finite(),
        level(rows, k).1.len() >= k + 1,
        level(rows, k).1.subset_of(vstd::set_lib::set_int_range(0, rows.len() as int)),
    decreases k,
{
    let range = vstd::set_lib::set_int_range(0, rows.len() as int);
    vstd::set_lib::lemma_int_range(0, rows.len() as int);
    lemma_front_members(rows, k);
    let front = level(rows, k).0;
    assert(front.contains(front[0]));
    if k == 0 {
        assert(level(rows, 0).1.subset_of(range));
        vstd::set_lib::lemma_len_subset(set![front[0]], level(rows, 0).1);
        vstd::set_lib::lemma_len_subset(level(rows, 0).1, range);
    } else {
        lemma_placed_grow(rows, (k - 1) as nat);
        let prev = level(rows, (k - 1) as nat).1;
        let all = level(rows, k).1;
        assert(all == prev + front.to_set());
        assert(all.subset_of(range));
        vstd::set_lib::lemma_len_subset(all, range);
        assert(!prev.contains(front[0]));
        vstd::set_lib::lemma_len_subset(prev.insert(front[0]), all);
    }
}

/// Some run of `cur` before position `b` dominates run `x`; the last one
/// is a last dominator.
proof fn lemma_last_dominator_exists(rows: Seq<Seq<i64>>, cur: Seq<int>, x: int, b: int) -> (a: int)
    requires
        0 <= b <= cur.len(),
        exists|c: int| 0 <= c < b && dominates(rows[#[trigger] cur[c]], rows[x]),
        forall|c: int| b <= c < cur.len() ==> !dominates(rows[#[trigger] cur[c]], rows[x]),
    ensures
        0 <= a < cur.len(),
        last_dominator(rows, cur, x, a),
    decreases b,
{
    if dominates(rows[cur[b - 1]], rows[x]) {
        b - 1
    } else {
        lemma_last_dominator_exists(rows, cur, x, b - 1)
    }
}

/// A run that joins after some run of the current front is in the next front.
proof fn lemma_joins_next_front(rows: Seq<Seq<i64>>, cur: Seq<int>, placed: Set<int>, m: nat, a: int, x: int)
    requires
        0 <= a < m,
        0 <= x < rows.len(),
        joins_after(rows, cur, placed, a)(x),
    ensures
        next_front(rows, cur, placed, m).contains(x),
    decreases m,
{
    broadcast use vstd::seq_lib::group_filter_ensures;
    if a < m - 1 {
        lemma_joins_next_front(rows, cur, placed, (m - 1) as nat, a, x);
        let prev = next_front(rows, cur, placed, (m - 1) as nat);
        let t = choose|t: int| 0 <= t < prev.len() && prev[t] == x;
        let add = positions(rows.len()).filter(joins_after(rows, cur, placed, m - 1));
        assert((prev + add)[t] == x);
    } else {
        let prev = next_front(rows, cur, placed, (m - 1) as nat);
        let add = positions(rows.len()).filter(joins_after(rows, cur, placed, m - 1));
        assert(positions(rows.len())[x] == x);
        assert(add.contains(x));
        let t = choose|t: int| 0 <= t < add.len() && add[t] == x;
        assert((prev + add)[prev.len() + t] == x);
    }
}

/// A run none of whose dominators is left unplaced after front `k` is
/// placed by front `k + 1`.
proof fn lemma_joins_when_dominators_placed(rows: Seq<Seq<i64>>, k: nat, x: int)
    requires
        0 <= x < rows.len(),
        dominators_placed(rows, x, level(rows, k).1),
    ensures
        level(rows, k + 1).1.contains(x),
    decreases k,
{
    broadcast use vstd::seq_lib::group_filter_ensures;
    lemma_placed_runs(rows, k);
    lemma_placed_runs(rows, k + 1);
    if level(rows, k).1.contains(x) {
        let m = choose|m: nat| m <= k && #[trigger] level(rows, m).0.contains(x);
        assert(level(rows, m).0.contains(x));
    } else if k > 0 && dominators_placed(rows, x, level(rows, (k - 1) as nat).1) {
        lemma_joins_when_dominators_placed(rows, (k - 1) as nat, x);
        assert(false);
    } else if k == 0 && undominated(rows)(x) {
        assert(positions(rows.len())[x] == x);
        assert(level(rows, 0).0.contains(x));
        assert(false);
    } else {
        let cur = level(rows, k).0;
        let placed = level(rows, k).1;
        // Some dominator of `x` lies in front `k`.
        let y = if k == 0 {
            choose|i: int| 0 <= i < rows.len() && dominates(#[trigger] rows[i], rows[x])
        } else {
            choose|i: int|
                0 <= i < rows.len() && dominates(rows[i], rows[x]) && !#[trigger] level(rows, (k - 1) as nat).1.contains(i)
        };
        assert(placed.contains(y));
        let my = choose|m: nat| m <= k && #[trigger] level(rows, m).0.contains(y);
        if my < k {
            lemma_placed_runs(rows, (k - 1) as nat);
            assert(level(rows, (k - 1) as nat).1.contains(y));
            assert(k > 0);
        }
        assert(cur.contains(y));
        let c = choose|c: int| 0 <= c < cur.len() && cur[c] == y;
        let a = lemma_last_dominator_exists(rows, cur, x, cur.len() as int);
        assert(joins_after(rows, cur, placed, a)(x));
        lemma_joins_next_front(rows, cur, placed, cur.len(), a, x);
        assert(level(rows, k + 1).0.contains(x));
    }
}

/// No key is NaN and all rows have the same length.
pub open spec fn plain_rows(rows: Seq<Seq<i64>>) -> bool {
    &&& forall|i: int, o: int| 0 <= i < rows.len() && 0 <= o < rows[i].len() ==> !is_nan_key(#[trigger] rows[i][o])
    &&& forall|i: int, j: int| 0 <= i < rows.len() && 0 <= j < rows.len() ==> #[trigger] rows[i].len() == #[trigger] rows[j].len()
}

/// Without NaN, dominance is transitive and no run dominates itself.
proof fn lemma_dominance_order(rows: Seq<Seq<i64>>, i: int, j: int, l: int)
    requires
        plain_rows(rows),
        0 <= i < rows.len(),
        0 <= j < rows.len(),
        0 <= l < rows.len(),
    ensures
        !dominates(rows[i], rows[i]),
        dominates(rows[i], rows[j]) && dominates(rows[j], rows[l]) ==> dominates(rows[i], rows[l]),
{
    let (a, b, c) = (rows[i], rows[j], rows[l]);
    assert(a.len() == b.len() && b.len() == c.len());
    if dominates(a, b) && dominates(b, c) {
        let o = choose|o: int| 0 <= o < a.len() && #[trigger] key_greater(a[o], b[o]);
        assert(!key_greater(c[o], b[o]));
        assert(!is_nan_key(rows[l][o]));
        assert(key_greater(a[o], c[o]));
        assert forall|p: int| 0 <= p < c.len() implies !#[trigger] key_greater(c[p], a[p]) by {
            assert(!key_greater(b[p], a[p]));
            assert(!key_greater(c[p], b[p]));
            assert(!is_nan_key(rows[i][p]));
            assert(!is_nan_key(rows[j][p]));
            assert(!is_nan_key(rows[l][p]));
        }
    }
}

/// Every finite non-empty set of runs holds a run that no run of the set
/// dominates, when dominance is a strict order.
proof fn lemma_undominated_in_set(rows: Seq<Seq<i64>>, u: Set<int>) -> (y: int)
    requires
        plain_rows(rows),
        u.finite(),
        u.len() > 0,
        forall|x: int| #[trigger] u.contains(x) ==> 0 <= x < rows.len(),
    ensures
        u.contains(y),
        forall|w: int| #[trigger] u.contains(w) ==> !dominates(rows[w], rows[y]),
    decreases u.len(),
{
    let z = u.choose();
    let rest = u.remove(z);
    lemma_dominance_order(rows, z, z, z);
    if rest.len() == 0 {
        assert forall|w: int| #[trigger] u.contains(w) implies !dominates(rows[w], rows[z]) by {
            if w != z {
                assert(rest.contains(w));
            }
        }
        z
    } else {
        let y2 = lemma_undominated_in_set(rows, rest);
        if dominates(rows[z], rows[y2]) {
            assert forall|w: int| #[trigger] u.contains(w) implies !dominates(rows[w], rows[z]) by {
                if w != z {
                    assert(rest.contains(w));
                    lemma_dominance_order(rows, w, z, y2);
                }
            }
            z
        } else {
            assert forall|w: int| #[trigger] u.contains(w) implies !dominates(rows[w], rows[y2]) by {
                if w != z {
                    assert(rest.contains(w));
                }
            }
            y2
        }
    }
}

/// Run `x` is in one of the fronts `f`.
pub open spec fn in_some_front(f: Seq<Seq<int>>, x: int) -> bool {
    exists|a: int| 0 <= a < f.len() && #[trigger] f[a].contains(x)
}

/// Without NaN every run lands in a front (in exactly one, by
/// `lemma_fronts_respect_dominance`).
pub proof fn lemma_fronts_cover_runs(rows: Seq<Seq<i64>>)
    requires
        plain_rows(rows),
    ensures
        ({
            let f = sorted_fronts(rows);
            forall|x: int| 0 <= x < rows.len() ==> #[trigger] in_some_front(f, x)
        }),
{
    let f = sorted_fronts(rows);
    let n = rows.len();
    let fuel = (n + 1) as nat;
    lemma_fronts_stop(rows, 0, fuel);
    lemma_fronts_are_levels(rows, 0, fuel);
    let len = f.len();
    if len == fuel {
        assert forall|m: nat| m <= n implies #[trigger] level(rows, m).0.len() > 0 by {
            assert(level(rows, 0 + m).0.len() > 0);
        }
        lemma_placed_grow(rows, n);
        vstd::set_lib::lemma_int_range(0, n as int);
        vstd::set_lib::lemma_len_subset(level(rows, n).1, vstd::set_lib::set_int_range(0, n as int));
        assert(false);
    }
    assert(level(rows, len).0.len() == 0);
    if len == 0 && n > 0 {
        // Some run is undominated, so the first front is not empty.
        let all = vstd::set_lib::set_int_range(0, n as int);
        vstd::set_lib::lemma_int_range(0, n as int);
        assert(all.contains(0));
        let y = lemma_undominated_in_set(rows, all);
        assert forall|i: int| 0 <= i < rows.len() implies !dominates(#[trigger] rows[i], rows[y]) by {
            assert(all.contains(i));
        }
        assert(undominated(rows)(y));
        assert(positions(n)[y] == y);
        assert(level(rows, 0).0.contains(y));
        assert(level(rows, 0).0.len() > 0);
        assert(false);
    }
    assert forall|x: int| 0 <= x < rows.len() implies #[trigger] in_some_front(f, x) by {
        let last = (len - 1) as nat;
        let placed = level(rows, last).1;
        lemma_placed_runs(rows, last);
        let u = vstd::set_lib::set_int_range(0, n as int).difference(placed);
        vstd::set_lib::lemma_int_range(0, n as int);
        vstd::set_lib::lemma_len_subset(u, vstd::set_lib::set_int_range(0, n as int));
        if !placed.contains(x) {
            assert(u.contains(x));
            vstd::set_lib::lemma_len_subset(set![x], u);
            let y = lemma_undominated_in_set(rows, u);
            assert forall|i: int| 0 <= i < rows.len() && dominates(rows[i], rows[y]) implies #[trigger] placed.contains(
                i,
            ) by {
                if !placed.contains(i) {
                    assert(u.contains(i));
                }
            }
            lemma_joins_when_dominators_placed(rows, last, y);
            lemma_placed_runs(rows, last + 1);
            let m = choose|m: nat| m <= last + 1 && #[trigger] level(rows, m).0.contains(y);
            if m < last + 1 {
                assert(placed.contains(y));
            } else {
                assert(level(rows, len).0.contains(y));
                assert(level(rows, len).0.len() > 0);
            }
            assert(false);
        }
        let m = choose|m: nat| m <= last && #[trigger] level(rows, m).0.contains(x);
        assert(f[m as int] == level(rows, (0 + m) as nat).0);
        assert(f[m as int].contains(x));
    }
}

} // verus!
