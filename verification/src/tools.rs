//! The parameters of the tools that the server offers, with the defaults
//! the handlers apply, and the small pieces of logic the handlers share.

use vstd::prelude::*;
use crate::strategy::space_views;
use crate::text::{decimal, decimal_chars, extend_chars, extend_str, pair_views, string_of};
use crate::trial::{lookup, lookup_param};

verus! {

/// The metric a request names, or `f1`.
pub open spec fn metric_or_f1(metric: Option<String>) -> Seq<char> {
    match metric {
        Some(m) => m@,
        None => "f1"@,
    }
}

fn metric_or_default(metric: &Option<String>) -> (r: String)
    ensures
        r@ == metric_or_f1(*metric),
{
    match metric {
        Some(m) => m.clone(),
        None => "f1".to_owned(),
    }
}

/// Parameters of the status tool.
pub struct StatusParams {
    /// Primary metric to rank by (default: `f1`).
    pub metric: Option<String>,
}

impl StatusParams {
    /// The metric to rank by.
    pub fn metric(&self) -> (r: String)
        ensures
            r@ == metric_or_f1(self.metric),
    {
        metric_or_default(&self.metric)
    }
}

/// Parameters of the history tool.
pub struct HistoryParams {
    /// Number of recent experiments to return (default: 10, max: 100).
    pub last: Option<usize>,
}

impl HistoryParams {
    /// How many recent experiments to return.
    pub fn count(&self) -> (r: usize)
        ensures
            r == (match self.last {
                Some(n) => if n < 100 {
                    n
                } else {
                    100
                },
                None => 10,
            }),
    {
        let n = match self.last {
            Some(n) => n,
            None => 10,
        };
        if n < 100 {
            n
        } else {
            100
        }
    }
}

/// Parameters of the suggest tool.
pub struct SuggestParams {
    /// Primary metric to optimise (default: `f1`).
    pub metric: Option<String>,
}

impl SuggestParams {
    /// The metric to optimise.
    pub fn metric(&self) -> (r: String)
        ensures
            r@ == metric_or_f1(self.metric),
    {
        metric_or_default(&self.metric)
    }
}

/// Parameters of the Pareto tool.
pub struct ParetoParams {
    /// First metric (e.g. `f1`).
    pub x_metric: String,
    /// Second metric (e.g. `precision`).
    pub y_metric: String,
}

/// Parameters of the learnings tool.
pub struct LearningsParams {
    /// The parameter to report on (every sweep parameter when absent).
    pub param: Option<String>,
    /// Primary metric for the gradients (default: `f1`).
    pub metric: Option<String>,
}

impl LearningsParams {
    /// The metric for the gradients.
    pub fn metric(&self) -> (r: String)
        ensures
            r@ == metric_or_f1(self.metric),
    {
        metric_or_default(&self.metric)
    }
}

/// The scorer of an evaluation dimension.
#[derive(Debug, Clone, Copy, PartialEq, Eq)]
pub enum ScorerKind {
    F1,
    ClassificationAccuracy,
    TimestampMae,
}

impl ScorerKind {
    /// The scorer a dimension names: `f1`, `accuracy` or
    /// `classification_accuracy`, `timestamp_mae`; F1 for any other name.
    pub fn for_name(name: &str) -> (r: ScorerKind)
        ensures
            r == (if name@ == "accuracy"@ || name@ == "classification_accuracy"@ {
                ScorerKind::ClassificationAccuracy
            } else if name@ == "timestamp_mae"@ {
                ScorerKind::TimestampMae
            } else {
                ScorerKind::F1
            }),
    {
        let s = name.to_owned();
        if s == "accuracy".to_owned() || s == "classification_accuracy".to_owned() {
            ScorerKind::ClassificationAccuracy
        } else if s == "timestamp_mae".to_owned() {
            ScorerKind::TimestampMae
        } else {
            ScorerKind::F1
        }
    }
}

/// The configuration that takes the first candidate value of every sweep
/// parameter that has one.
pub open spec fn first_values(space: Seq<(Seq<char>, Seq<Seq<char>>)>) -> Seq<(Seq<char>, Seq<char>)> {
    space.filter(|p: (Seq<char>, Seq<Seq<char>>)| p.1.len() > 0).map_values(
        |p: (Seq<char>, Seq<Seq<char>>)| (p.0, p.1[0]),
    )
}

/// The production configuration: the first candidate value of each sweep parameter.
pub fn production_config(space: &[(String, Vec<String>)]) -> (r: Vec<(String, String)>)
    ensures
        pair_views(r@) == first_values(space_views(space@)),
{
    let ghost sv = space_views(space@);
    let ghost keep = |p: (Seq<char>, Seq<Seq<char>>)| p.1.len() > 0;
    let ghost f = |p: (Seq<char>, Seq<Seq<char>>)| (p.0, p.1[0]);
    let mut r: Vec<(String, String)> = Vec::new();
    let mut i: usize = 0;
    assert(sv.take(0) =~= Seq::<(Seq<char>, Seq<Seq<char>>)>::empty());
    while i < space.len()
        invariant
            i <= space.len(),
            sv == space_views(space@),
            keep == (|p: (Seq<char>, Seq<Seq<char>>)| p.1.len() > 0),
            f == (|p: (Seq<char>, Seq<Seq<char>>)| (p.0, p.1[0])),
            pair_views(r@) == sv.take(i as int).filter(keep).map_values(f),
        decreases space.len() - i,
    {
        let ghost before = pair_views(r@);
        proof {
            assert(sv.take(i + 1) =~= sv.take(i as int).push(sv[i as int]));
            sv.take(i as int).lemma_filter_push(sv[i as int], keep);
        }
        assert(sv[i as int] == (space@[i as int].0@, space@[i as int].1@.map_values(|v: String| v@)));
        if space[i].1.len() > 0 {
            r.push((space[i].0.clone(), space[i].1[0].clone()));
            assert(pair_views(r@) =~= before.push(f(sv[i as int])));
        }
        assert(sv.take(i + 1).filter(keep).map_values(f) =~= if keep(sv[i as int]) {
            sv.take(i as int).filter(keep).map_values(f).push(f(sv[i as int]))
        } else {
            sv.take(i as int).filter(keep).map_values(f)
        });
        i += 1;
    }
    assert(sv.take(space.len() as int) =~= sv);
    r
}

/// The configuration of a run: the production configuration with the
/// overrides applied; each parameter holds its override when there is one
/// and its first candidate value otherwise, and overrides of parameters
/// outside the production configuration come last, in their order.
pub open spec fn merged(
    space: Seq<(Seq<char>, Seq<Seq<char>>)>,
    overrides: Seq<(Seq<char>, Seq<char>)>,
) -> Seq<(Seq<char>, Seq<char>)> {
    let base = first_values(space);
    base.map_values(
        |p: (Seq<char>, Seq<char>)|
            (
                p.0,
                match lookup(overrides, p.0) {
                    Some(v) => v,
                    None => p.1,
                },
            ),
    ) + overrides.filter(|o: (Seq<char>, Seq<char>)| lookup(base, o.0) is None)
}

/// Applies parameter overrides to the production configuration.
pub fn merge_params(space: &[(String, Vec<String>)], overrides: &Vec<(String, String)>) -> (r: Vec<
    (String, String),
>)
    ensures
        pair_views(r@) == merged(space_views(space@), pair_views(overrides@)),
{
    let base = production_config(space);
    let ghost bv = pair_views(base@);
    let ghost ov = pair_views(overrides@);
    let ghost g = |p: (Seq<char>, Seq<char>)|
        (
            p.0,
            match lookup(ov, p.0) {
                Some(v) => v,
                None => p.1,
            },
        );
    let mut r: Vec<(String, String)> = Vec::new();
    let mut i: usize = 0;
    while i < base.len()
        invariant
            i <= base.len(),
            bv == pair_views(base@),
            ov == pair_views(overrides@),
            g == (|p: (Seq<char>, Seq<char>)|
                (
                    p.0,
                    match lookup(ov, p.0) {
                        Some(v) => v,
                        None => p.1,
                    },
                )),
            pair_views(r@) == bv.take(i as int).map_values(g),
        decreases base.len() - i,
    {
        let ghost before = pair_views(r@);
        assert(bv[i as int] == (base@[i as int].0@, base@[i as int].1@));
        let v = match lookup_param(overrides, &base[i].0) {
            Some(o) => o.clone(),
            None => base[i].1.clone(),
        };
        r.push((base[i].0.clone(), v));
        assert(pair_views(r@) =~= before.push(g(bv[i as int])));
        assert(bv.take(i + 1).map_values(g) =~= bv.take(i as int).map_values(g).push(g(bv[i as int])));
        i += 1;
    }
    assert(bv.take(base.len() as int) =~= bv);
    let ghost head = pair_views(r@);
    let ghost keep = |o: (Seq<char>, Seq<char>)| lookup(bv, o.0) is None;
    let mut j: usize = 0;
    assert(ov.take(0) =~= Seq::<(Seq<char>, Seq<char>)>::empty());
    while j < overrides.len()
        invariant
            j <= overrides.len(),
            bv == pair_views(base@),
            ov == pair_views(overrides@),
            keep == (|o: (Seq<char>, Seq<char>)| lookup(bv, o.0) is None),
            pair_views(r@) == head + ov.take(j as int).filter(keep),
        decreases overrides.len() - j,
    {
        let ghost before = pair_views(r@);
        proof {
            assert(ov.take(j + 1) =~= ov.take(j as int).push(ov[j as int]));
            ov.take(j as int).lemma_filter_push(ov[j as int], keep);
        }
        assert(ov[j as int] == (overrides@[j as int].0@, overrides@[j as int].1@));
        if lookup_param(&base, &overrides[j].0).is_none() {
            r.push((overrides[j].0.clone(), overrides[j].1.clone()));
            assert(pair_views(r@) =~= before.push(ov[j as int]));
        }
        j += 1;
    }
    assert(ov.take(overrides.len() as int) =~= ov);
    r
}

/// Looking a key up in a concatenation: the first part, then the second.
proof fn lemma_lookup_concat(a: Seq<(Seq<char>, Seq<char>)>, b: Seq<(Seq<char>, Seq<char>)>, k: Seq<char>)
    ensures
        lookup(a + b, k) == match lookup(a, k) {
            Some(v) => Some(v),
            None => lookup(b, k),
        },
    decreases a.len(),
{
    if a.len() > 0 {
        assert((a + b)[0] == a[0]);
        assert((a + b).drop_first() =~= a.drop_first() + b);
        lemma_lookup_concat(a.drop_first(), b, k);
    } else {
        assert(a + b =~= b);
    }
}

/// Looking a key up in the production configuration with the overrides
/// applied to its values.
proof fn lemma_lookup_overridden(
    base: Seq<(Seq<char>, Seq<char>)>,
    overrides: Seq<(Seq<char>, Seq<char>)>,
    k: Seq<char>,
)
    ensures
        lookup(
            base.map_values(
                |p: (Seq<char>, Seq<char>)|
                    (
                        p.0,
                        match lookup(overrides, p.0) {
                            Some(v) => v,
                            None => p.1,
                        },
                    ),
            ),
            k,
        ) == match lookup(base, k) {
            Some(v) => Some(
                match lookup(overrides, k) {
                    Some(o) => o,
                    None => v,
                },
            ),
            None => None,
        },
    decreases base.len(),
{
    let g = |p: (Seq<char>, Seq<char>)|
        (
            p.0,
            match lookup(overrides, p.0) {
                Some(v) => v,
                None => p.1,
            },
        );
    if base.len() > 0 {
        assert(base.map_values(g)[0] == g(base[0]));
        assert(base.map_values(g).drop_first() =~= base.drop_first().map_values(g));
        lemma_lookup_overridden(base.drop_first(), overrides, k);
    }
}

/// The overrides kept after the production configuration hold every
/// override of a key the production configuration lacks.
proof fn lemma_lookup_kept(
    overrides: Seq<(Seq<char>, Seq<char>)>,
    base: Seq<(Seq<char>, Seq<char>)>,
    k: Seq<char>,
)
    requires
        lookup(base, k) is None,
    ensures
        lookup(overrides.filter(|o: (Seq<char>, Seq<char>)| lookup(base, o.0) is None), k) == lookup(
            overrides,
            k,
        ),
    decreases overrides.len(),
{
    let keep = |o: (Seq<char>, Seq<char>)| lookup(base, o.0) is None;
    if overrides.len() > 0 {
        let t = overrides.drop_first();
        assert(overrides =~= seq![overrides[0]] + t);
        t.lemma_filter_prepend(overrides[0], keep);
        lemma_lookup_kept(t, base, k);
        if keep(overrides[0]) {
            let f = seq![overrides[0]] + t.filter(keep);
            assert(f[0] == overrides[0]);
            assert(f.drop_first() =~= t.filter(keep));
        } else {
            assert(Seq::<(Seq<char>, Seq<char>)>::empty() + t.filter(keep) =~= t.filter(keep));
        }
    } else {
        assert(overrides.filter(keep) =~= overrides);
    }
}

/// A merged configuration gives back every override, and the first
/// candidate value of each parameter that has no override.
pub proof fn lemma_merged_reads_back(
    space: Seq<(Seq<char>, Seq<Seq<char>>)>,
    overrides: Seq<(Seq<char>, Seq<char>)>,
    k: Seq<char>,
)
    ensures
        lookup(merged(space, overrides), k) == match lookup(overrides, k) {
            Some(v) => Some(v),
            None => lookup(first_values(space), k),
        },
{
    let base = first_values(space);
    let g = |p: (Seq<char>, Seq<char>)|
        (
            p.0,
            match lookup(overrides, p.0) {
                Some(v) => v,
                None => p.1,
            },
        );
    let keep = |o: (Seq<char>, Seq<char>)| lookup(base, o.0) is None;
    assert(merged(space, overrides) == base.map_values(g) + overrides.filter(keep));
    lemma_lookup_concat(base.map_values(g), overrides.filter(keep), k);
    lemma_lookup_overridden(base, overrides, k);
    if lookup(base, k) is None {
        lemma_lookup_kept(overrides, base, k);
    }
}

/// `s` padded on the left with zeros to at least four characters.
pub open spec fn zero_pad4(s: Seq<char>) -> Seq<char> {
    if s.len() >= 4 {
        s
    } else {
        Seq::new((4 - s.len()) as nat, |i: int| '0') + s
    }
}

/// The identifier of the `count`-th run: the prefix, a hyphen and the
/// count with at least four digits (`exp-0007`).
pub fn experiment_id(prefix: &str, count: usize) -> (r: String)
    ensures
        r@ == prefix@ + "-"@ + zero_pad4(decimal(count as nat)),
{
    let mut out: Vec<char> = Vec::new();
    extend_str(&mut out, prefix);
    extend_str(&mut out, "-");
    let digits = decimal_chars(count as u64);
    let mut pad: Vec<char> = Vec::new();
    if digits.len() < 4 {
        let mut k: usize = 0;
        while k < 4 - digits.len()
            invariant
                digits.len() < 4,
                k <= 4 - digits.len(),
                pad@ == Seq::new(k as nat, |i: int| '0'),
            decreases 4 - digits.len() - k,
        {
            pad.push('0');
            assert(pad@ =~= Seq::new((k + 1) as nat, |i: int| '0'));
            k += 1;
        }
    }
    extend_chars(&mut out, &pad);
    extend_chars(&mut out, &digits);
    proof {
        if digits.len() >= 4 {
            assert(pad@ =~= Seq::<char>::empty());
        }
        assert(zero_pad4(digits@) =~= pad@ + digits@);
    }
    string_of(&out)
}

} // verus!
