//! Gradient-guided tuning: change one parameter at a time, led by what the
//! history says about each parameter.
//!
//! The signals measured in floating point (whether the recent runs reached
//! a plateau, which gradient is strongest and its mean delta) are handed in
//! by the caller; the random draws are indices, each taken modulo the length
//! of the list it picks from.

use vstd::prelude::*;
use crate::learning::{GradientDirection, is_varied, varied};
use crate::store::{is_nan_key, key_greater, max_pick};
use crate::strategy::{Proposal, StrategyError, copy_pairs, error_text, random_below, space_views};
use crate::text::{decimal, decimal_chars, extend_chars, extend_str, pair_views, string_of};
use crate::trial::{TrialRecord, config_already_tried, lookup, lookup_param, params_of, tried_before};

verus! {

/// `cfg` with parameter `k` set to `v`: its entries for `k` take the new
/// value, or a new entry is appended when it has none.
pub open spec fn with_param(cfg: Seq<(Seq<char>, Seq<char>)>, k: Seq<char>, v: Seq<char>) -> Seq<
    (Seq<char>, Seq<char>),
> {
    if lookup(cfg, k) is Some {
        cfg.map_values(
            |e: (Seq<char>, Seq<char>)|
                if e.0 == k {
                    (k, v)
                } else {
                    e
                },
        )
    } else {
        cfg.push((k, v))
    }
}

proof fn lemma_lookup_none_all(cfg: Seq<(Seq<char>, Seq<char>)>, k: Seq<char>)
    requires
        lookup(cfg, k) is None,
    ensures
        forall|i: int| 0 <= i < cfg.len() ==> (#[trigger] cfg[i]).0 != k,
    decreases cfg.len(),
{
    if cfg.len() > 0 {
        lemma_lookup_none_all(cfg.drop_first(), k);
        assert forall|i: int| 0 <= i < cfg.len() implies (#[trigger] cfg[i]).0 != k by {
            if i > 0 {
                assert(cfg[i] == cfg.drop_first()[i - 1]);
            }
        }
    }
}

/// Sets parameter `k` to `v`.
pub fn set_param(cfg: &Vec<(String, String)>, k: &String, v: &String) -> (r: Vec<(String, String)>)
    ensures
        pair_views(r@) == with_param(pair_views(cfg@), k@, v@),
{
    let ghost cv = pair_views(cfg@);
    let found = lookup_param(cfg, k).is_some();
    let mut r: Vec<(String, String)> = Vec::new();
    let mut i: usize = 0;
    let ghost f = |e: (Seq<char>, Seq<char>)|
        if e.0 == k@ {
            (k@, v@)
        } else {
            e
        };
    while i < cfg.len()
        invariant
            i <= cfg.len(),
            cv == pair_views(cfg@),
            f == (|e: (Seq<char>, Seq<char>)|
                if e.0 == k@ {
                    (k@, v@)
                } else {
                    e
                }),
            pair_views(r@) == cv.take(i as int).map_values(f),
        decreases cfg.len() - i,
    {
        let ghost before = pair_views(r@);
        assert(cv[i as int] == (cfg@[i as int].0@, cfg@[i as int].1@));
        if cfg[i].0 == *k {
            r.push((k.clone(), v.clone()));
        } else {
            r.push((cfg[i].0.clone(), cfg[i].1.clone()));
        }
        assert(pair_views(r@) =~= before.push(f(cv[i as int])));
        assert(cv.take(i + 1).map_values(f) =~= cv.take(i as int).map_values(f).push(f(cv[i as int])));
        i += 1;
    }
    assert(cv.take(cfg.len() as int) =~= cv);
    if !found {
        proof {
            lemma_lookup_none_all(cv, k@);
            assert(cv.map_values(f) =~= cv);
        }
        let ghost before = pair_views(r@);
        r.push((k.clone(), v.clone()));
        assert(pair_views(r@) =~= before.push((k@, v@)));
    }
    r
}

/// The value `min_by` picks among the first `n` values with a key: it
/// keeps its current pick unless that pick compares greater, so the first
/// of equal minima wins.
pub open spec fn min_pick(keys: Seq<Option<i64>>, n: nat) -> Option<int>
    decreases n,
{
    if n == 0 {
        None
    } else {
        let prev = min_pick(keys, (n - 1) as nat);
        match keys[n - 1] {
            None => prev,
            Some(k) => match prev {
                Some(p) => if key_greater(keys[p]->0, k) {
                    Some(n - 1)
                } else {
                    Some(p)
                },
                None => Some(n - 1),
            },
        }
    }
}

fn min_position(keys: &[Option<i64>]) -> (r: Option<usize>)
    ensures
        match r {
            Some(p) => min_pick(keys@, keys.len() as nat) == Some(p as int),
            None => min_pick(keys@, keys.len() as nat) is None,
        },
{
    let mut best: Option<usize> = None;
    let mut i: usize = 0;
    while i < keys.len()
        invariant
            i <= keys.len(),
            match best {
                Some(p) => min_pick(keys@, i as nat) == Some(p as int) && p < i && keys@[p as int] is Some,
                None => min_pick(keys@, i as nat) is None,
            },
        decreases keys.len() - i,
    {
        match keys[i] {
            None => {},
            Some(k) => match best {
                Some(p) => {
                    let bk = match keys[p] {
                        Some(b) => b,
                        None => 0,
                    };
                    let greater = !(bk > 0x7FF0_0000_0000_0000 || bk < -0x7FF0_0000_0000_0000)
                        && !(k > 0x7FF0_0000_0000_0000 || k < -0x7FF0_0000_0000_0000) && bk > k;
                    if greater {
                        best = Some(i);
                    }
                },
                None => {
                    best = Some(i);
                },
            },
        }
        i += 1;
    }
    best
}

fn max_position(keys: &[Option<i64>]) -> (r: Option<usize>)
    ensures
        match r {
            Some(p) => max_pick(keys@, keys.len() as nat) == Some(p as int),
            None => max_pick(keys@, keys.len() as nat) is None,
        },
{
    crate::store::JsonlStore::best_position(keys)
}

/// The strongest gradient, as the caller measured it.
pub struct GradientChoice {
    /// Position of the parameter in the sweep space.
    pub param: usize,
    /// Which way the parameter should move.
    pub direction: GradientDirection,
    /// The order key of each candidate value that is a number.
    pub value_keys: Vec<Option<i64>>,
    /// The mean metric delta, written for the rationale.
    pub delta_text: String,
}

/// The random draws of one suggestion.
pub struct TuningDraws {
    /// Parameter and value explored on a cold start.
    pub start_param: usize,
    pub start_value: usize,
    /// Value tried for an untried parameter.
    pub untried_value: usize,
    /// Whether to explore an untried parameter before following a gradient.
    pub explore: bool,
    /// Value tried for an inconclusive gradient.
    pub gradient_value: usize,
    /// Parameter whose range is expanded on a plateau.
    pub expand_param: usize,
    /// Parameter and value of a random change.
    pub random_param: usize,
    pub random_value: usize,
}

/// The index that a draw `d` picks from `n` items.
pub open spec fn drawn(d: usize, n: nat) -> int {
    (d as nat % n) as int
}

/// Parameter `key` counts as untried: the history has fewer than two runs
/// or never varied it.
pub open spec fn is_untried(history: Seq<TrialRecord>, key: Seq<char>) -> bool {
    history.len() < 2 || !varied(history, key)
}

/// The position of the first sweep parameter that the history never varied.
pub open spec fn first_untried_position(history: Seq<TrialRecord>, sv: Seq<(Seq<char>, Seq<Seq<char>>)>) -> Option<int> {
    if exists|k: int| 0 <= k < sv.len() && is_untried(history, #[trigger] sv[k].0) {
        Some(
            choose|k: int|
                0 <= k < sv.len() && is_untried(history, #[trigger] sv[k].0) && forall|j: int|
                    0 <= j < k ==> !is_untried(history, #[trigger] sv[j].0),
        )
    } else {
        None
    }
}

/// The configuration the changes start from: that of the best run on the
/// primary metric (the last of equal bests), or the production one.
pub open spec fn base_of(history: Seq<TrialRecord>, production: Seq<(Seq<char>, Seq<char>)>) -> Seq<(Seq<char>, Seq<char>)> {
    match max_pick(history.map_values(|r: TrialRecord| r.metric), history.len()) {
        Some(p) => params_of(history[p]),
        None => production,
    }
}

/// The value a gradient picks: the largest number when increasing helps
/// (the last of equal largest; the last value when none is a number), the
/// smallest when decreasing helps (the first of equal smallest; the first
/// value when none is a number), a random one when inconclusive.
pub open spec fn gradient_pick(dir: GradientDirection, keys: Seq<Option<i64>>, n: nat, d: usize) -> Option<int> {
    let ks = Seq::new(n, |i: int| if i < keys.len() { keys[i] } else { None });
    if n == 0 {
        None
    } else {
        match dir {
            GradientDirection::IncreaseHelps => match max_pick(ks, n) {
                Some(p) => Some(p),
                None => Some(n - 1),
            },
            GradientDirection::DecreaseHelps => match min_pick(ks, n) {
                Some(p) => Some(p),
                None => Some(0),
            },
            GradientDirection::Inconclusive => Some(drawn(d, n)),
        }
    }
}

/// The name of a gradient direction, as it is printed.
pub open spec fn direction_name(d: GradientDirection) -> Seq<char> {
    match d {
        GradientDirection::IncreaseHelps => "IncreaseHelps"@,
        GradientDirection::DecreaseHelps => "DecreaseHelps"@,
        GradientDirection::Inconclusive => "Inconclusive"@,
    }
}

/// A suggestion as (configuration, changed parameters, rationale).
pub type SuggestionView = (Seq<(Seq<char>, Seq<char>)>, Seq<(Seq<char>, Seq<char>)>, Seq<char>);

/// The view of a proposal.
pub open spec fn proposal_view(p: Proposal) -> SuggestionView {
    (pair_views(p.params@), pair_views(p.changed@), p.rationale@)
}

/// The change of one parameter to one value.
pub open spec fn one_change(
    base: Seq<(Seq<char>, Seq<char>)>,
    name: Seq<char>,
    v: Seq<char>,
    why: Seq<char>,
) -> SuggestionView {
    (with_param(base, name, v), seq![(name, v)], why)
}

/// The configuration that follows a gradient to value `v` of parameter
/// `name`, moved to the first other candidate when it was tried already.
pub open spec fn gradient_config(
    base: Seq<(Seq<char>, Seq<char>)>,
    name: Seq<char>,
    values: Seq<Seq<char>>,
    v: Seq<char>,
    history: Seq<TrialRecord>,
) -> Seq<(Seq<char>, Seq<char>)> {
    let cfg = with_param(base, name, v);
    if tried_before(cfg, history) && exists|i: int| 0 <= i < values.len() && values[i] != v {
        let a = choose|i: int|
            0 <= i < values.len() && values[i] != v && forall|j: int| 0 <= j < i ==> #[trigger] values[j] == v;
        with_param(base, name, values[a])
    } else {
        cfg
    }
}

/// A random change of a random parameter.
pub open spec fn random_change(
    sv: Seq<(Seq<char>, Seq<Seq<char>>)>,
    base: Seq<(Seq<char>, Seq<char>)>,
    d: TuningDraws,
) -> Result<SuggestionView, Seq<char>> {
    if sv.len() == 0 {
        Err("Empty sweep space"@)
    } else {
        let p = drawn(d.random_param, sv.len());
        let (name, vals) = sv[p];
        if vals.len() == 0 {
            Err("Empty values for "@ + name)
        } else {
            Ok(one_change(base, name, vals[drawn(d.random_value, vals.len())], "Random exploration: "@ + name))
        }
    }
}

/// On a plateau with nothing untried: the largest candidate of a random parameter.
pub open spec fn expand_range(
    sv: Seq<(Seq<char>, Seq<Seq<char>>)>,
    base: Seq<(Seq<char>, Seq<char>)>,
    d: TuningDraws,
) -> Result<SuggestionView, Seq<char>> {
    if sv.len() == 0 {
        Err("Empty sweep space"@)
    } else {
        let p = drawn(d.expand_param, sv.len());
        let (name, vals) = sv[p];
        if vals.len() == 0 {
            Err("Empty values"@)
        } else {
            Ok(one_change(base, name, vals.last(), "Plateau: expanding range of "@ + name))
        }
    }
}


/// The view of a gradient choice: parameter position, direction, value
/// keys, delta text.
pub open spec fn gradient_view(g: Option<GradientChoice>) -> Option<(int, GradientDirection, Seq<Option<i64>>, Seq<char>)> {
    match g {
        Some(c) => Some((c.param as int, c.direction, c.value_keys@, c.delta_text@)),
        None => None,
    }
}

/// What one gradient-guided suggestion is:
/// - with fewer than two runs, a random value of a random parameter (when
///   that parameter has values), from the production configuration;
/// - otherwise from the best run's configuration: on a plateau, a random
///   value of the first untried parameter, or else the largest value of a
///   random parameter;
/// - without a plateau, when the draw says so, a random value of the first
///   untried parameter;
/// - otherwise the value the strongest gradient points to, moved to
///   another candidate when that configuration was tried already;
/// - and, failing all of these, a random value of a random parameter.
pub open spec fn tuning_suggestion(
    sv: Seq<(Seq<char>, Seq<Seq<char>>)>,
    production: Seq<(Seq<char>, Seq<char>)>,
    history: Seq<TrialRecord>,
    plateaued: bool,
    gradient: Option<(int, GradientDirection, Seq<Option<i64>>, Seq<char>)>,
    d: TuningDraws,
) -> Result<SuggestionView, Seq<char>> {
    let n = history.len();
    if n < 2 && sv.len() > 0 && sv[drawn(d.start_param, sv.len())].1.len() > 0 {
        let (name, vals) = sv[drawn(d.start_param, sv.len())];
        Ok(
            one_change(
                production,
                name,
                vals[drawn(d.start_value, vals.len())],
                "Insufficient history ("@ + decimal(n) + "). Exploring "@ + name + "."@,
            ),
        )
    } else {
        let base = base_of(history, production);
        let u = first_untried_position(history, sv);
        let u_ok = u is Some && sv[u->0].1.len() > 0;
        if plateaued {
            if u_ok {
                let (name, vals) = sv[u->0];
                Ok(
                    one_change(
                        base,
                        name,
                        vals[drawn(d.untried_value, vals.len())],
                        "Plateau detected. Exploring untried dimension: "@ + name,
                    ),
                )
            } else {
                expand_range(sv, base, d)
            }
        } else if d.explore && u_ok {
            let (name, vals) = sv[u->0];
            Ok(
                one_change(
                    base,
                    name,
                    vals[drawn(d.untried_value, vals.len())],
                    "Exploring untried dimension: "@ + name,
                ),
            )
        } else {
            match gradient {
                Some((p, dir, keys, delta)) => if 0 <= p < sv.len() {
                    let (name, vals) = sv[p];
                    match gradient_pick(dir, keys, vals.len(), d.gradient_value) {
                        Some(i) => {
                            let cfg = gradient_config(base, name, vals, vals[i], history);
                            let changed = match lookup(production, name) {
                                Some(pv) => if lookup(cfg, name) != Some(pv) {
                                    seq![(name, lookup(cfg, name)->0)]
                                } else {
                                    seq![]
                                },
                                None => seq![],
                            };
                            Ok(
                                (
                                    cfg,
                                    changed,
                                    "Gradient-guided: "@ + name + " ("@ + direction_name(dir)
                                        + ", avg_delta="@ + delta + ")"@,
                                ),
                            )
                        },
                        None => random_change(sv, base, d),
                    }
                } else {
                    random_change(sv, base, d)
                },
                None => random_change(sv, base, d),
            }
        }
    }
}

/// `r` is the outcome `o` describes.
pub open spec fn outcome_is(r: Result<Proposal, StrategyError>, o: Result<SuggestionView, Seq<char>>) -> bool {
    match o {
        Ok(v) => r matches Ok(p) && proposal_view(p) == v,
        Err(m) => r matches Err(e) && error_text(e) == m,
    }
}

fn one_change_exec(base: &Vec<(String, String)>, name: &String, v: &String, why: String) -> (r: Proposal)
    ensures
        proposal_view(r) == one_change(pair_views(base@), name@, v@, why@),
{
    let params = set_param(base, name, v);
    let mut changed: Vec<(String, String)> = Vec::new();
    changed.push((name.clone(), v.clone()));
    assert(pair_views(changed@) =~= seq![(name@, v@)]);
    Proposal { params, changed, rationale: why }
}

fn joined(a: &str, b: &str) -> (r: String)
    ensures
        r@ == a@ + b@,
{
    let mut out: Vec<char> = Vec::new();
    extend_str(&mut out, a);
    extend_str(&mut out, b);
    string_of(&out)
}

fn random_change_exec(space: &[(String, Vec<String>)], base: &Vec<(String, String)>, d: &TuningDraws) -> (r: Result<
    Proposal,
    StrategyError,
>)
    ensures
        outcome_is(r, random_change(space_views(space@), pair_views(base@), *d)),
{
    let ghost sv = space_views(space@);
    if space.len() == 0 {
        return Err(StrategyError::EmptySpace);
    }
    let p = d.random_param % space.len();
    let name = &space[p].0;
    let vals = &space[p].1;
    assert(sv[p as int] == (name@, vals@.map_values(|v: String| v@)));
    if vals.len() == 0 {
        return Err(StrategyError::EmptyValues(name.clone()));
    }
    let v = &vals[d.random_value % vals.len()];
    let why = joined("Random exploration: ", name.as_str());
    Ok(one_change_exec(base, name, v, why))
}

fn expand_range_exec(space: &[(String, Vec<String>)], base: &Vec<(String, String)>, d: &TuningDraws) -> (r: Result<
    Proposal,
    StrategyError,
>)
    ensures
        outcome_is(r, expand_range(space_views(space@), pair_views(base@), *d)),
{
    let ghost sv = space_views(space@);
    if space.len() == 0 {
        return Err(StrategyError::EmptySpace);
    }
    let p = d.expand_param % space.len();
    let name = &space[p].0;
    let vals = &space[p].1;
    assert(sv[p as int] == (name@, vals@.map_values(|v: String| v@)));
    if vals.len() == 0 {
        return Err(StrategyError::EmptyRange);
    }
    let v = &vals[vals.len() - 1];
    let why = joined("Plateau: expanding range of ", name.as_str());
    Ok(one_change_exec(base, name, v, why))
}


fn base_config(history: &[TrialRecord], production: &Vec<(String, String)>) -> (r: Vec<(String, String)>)
    ensures
        pair_views(r@) == base_of(history@, pair_views(production@)),
{
    let mut keys: Vec<Option<i64>> = Vec::new();
    let mut i: usize = 0;
    while i < history.len()
        invariant
            i <= history.len(),
            keys@ == history@.take(i as int).map_values(|r: TrialRecord| r.metric),
        decreases history.len() - i,
    {
        keys.push(history[i].metric);
        assert(keys@ =~= history@.take(i + 1).map_values(|r: TrialRecord| r.metric));
        i += 1;
    }
    assert(history@.take(history.len() as int) =~= history@);
    proof {
        crate::store::lemma_max_pick_in_range(keys@, keys.len() as nat);
    }
    match max_position(keys.as_slice()) {
        Some(p) => copy_pairs(&history[p].params),
        None => copy_pairs(production),
    }
}

fn untried_position(history: &[TrialRecord], space: &[(String, Vec<String>)]) -> (r: Option<usize>)
    ensures
        match r {
            Some(k) => first_untried_position(history@, space_views(space@)) == Some(k as int)
                && k < space.len(),
            None => first_untried_position(history@, space_views(space@)) is None,
        },
{
    let ghost sv = space_views(space@);
    let ghost hv = history@;
    let mut k: usize = 0;
    while k < space.len()
        invariant
            k <= space.len(),
            sv == space_views(space@),
            hv == history@,
            forall|j: int| 0 <= j < k ==> !is_untried(hv, #[trigger] sv[j].0),
        decreases space.len() - k,
    {
        assert(sv[k as int].0 == space@[k as int].0@);
        let untried = history.len() < 2 || !is_varied(history, &space[k].0);
        if untried {
            proof {
                assert(is_untried(hv, sv[k as int].0));
                let c = choose|c: int|
                    0 <= c < sv.len() && is_untried(hv, #[trigger] sv[c].0) && forall|j: int|
                        0 <= j < c ==> !is_untried(hv, #[trigger] sv[j].0);
                if c < k {
                    assert(!is_untried(hv, sv[c].0));
                }
                if c > k {
                    assert(!is_untried(hv, sv[k as int].0));
                }
            }
            return Some(k);
        }
        k += 1;
    }
    None
}

fn gradient_position(dir: GradientDirection, keys: &Vec<Option<i64>>, n: usize, d: usize) -> (r: Option<usize>)
    ensures
        match r {
            Some(i) => gradient_pick(dir, keys@, n as nat, d) == Some(i as int) && i < n,
            None => gradient_pick(dir, keys@, n as nat, d) is None,
        },
{
    if n == 0 {
        return None;
    }
    let ghost ks = Seq::new(n as nat, |i: int| if i < keys@.len() { keys@[i] } else { None });
    let mut padded: Vec<Option<i64>> = Vec::new();
    let mut i: usize = 0;
    while i < n
        invariant
            i <= n,
            ks == Seq::new(n as nat, |i: int| if i < keys@.len() { keys@[i] } else { None }),
            padded@ == ks.take(i as int),
        decreases n - i,
    {
        padded.push(if i < keys.len() { keys[i] } else { None });
        assert(padded@ =~= ks.take(i + 1));
        i += 1;
    }
    assert(padded@ =~= ks);
    match dir {
        GradientDirection::IncreaseHelps => {
            proof {
                crate::store::lemma_max_pick_in_range(ks, n as nat);
            }
            match max_position(padded.as_slice()) {
                Some(p) => Some(p),
                None => Some(n - 1),
            }
        },
        GradientDirection::DecreaseHelps => {
            proof {
                lemma_min_pick_in_range(ks, n as nat);
            }
            match min_position(padded.as_slice()) {
                Some(p) => Some(p),
                None => Some(0),
            }
        },
        GradientDirection::Inconclusive => Some(d % n),
    }
}

proof fn lemma_min_pick_in_range(keys: Seq<Option<i64>>, n: nat)
    ensures
        min_pick(keys, n) matches Some(p) ==> 0 <= p < n,
    decreases n,
{
    if n > 0 {
        lemma_min_pick_in_range(keys, (n - 1) as nat);
    }
}

proof fn lemma_first_other(values: Seq<Seq<char>>, v: Seq<char>, i: int)
    requires
        0 <= i < values.len(),
        values[i] != v,
        forall|j: int| 0 <= j < i ==> #[trigger] values[j] == v,
    ensures
        (choose|a: int|
            0 <= a < values.len() && values[a] != v && forall|j: int| 0 <= j < a ==> #[trigger] values[j] == v)
            == i,
{
    let w = choose|a: int|
        0 <= a < values.len() && values[a] != v && forall|j: int| 0 <= j < a ==> #[trigger] values[j] == v;
    assert(0 <= i < values.len() && values[i] != v && forall|j: int| 0 <= j < i ==> #[trigger] values[j] == v);
    if w < i {
        assert(values[w] == v);
    }
    if w > i {
        assert(values[i] == v);
    }
}

fn gradient_config_exec(
    base: &Vec<(String, String)>,
    name: &String,
    vals: &Vec<String>,
    v: &String,
    history: &[TrialRecord],
) -> (r: Vec<(String, String)>)
    ensures
        pair_views(r@) == gradient_config(
            pair_views(base@),
            name@,
            vals@.map_values(|s: String| s@),
            v@,
            history@,
        ),
{
    let ghost vv = vals@.map_values(|s: String| s@);
    let cfg = set_param(base, name, v);
    let cs = cfg.as_slice();
    let tried = config_already_tried(cs, history);
    assert(cs@ == cfg@);
    if !tried {
        assert(!tried_before(with_param(pair_views(base@), name@, v@), history@));
        return cfg;
    }
    let mut i: usize = 0;
    while i < vals.len()
        invariant
            i <= vals.len(),
            vv == vals@.map_values(|s: String| s@),
            forall|j: int| 0 <= j < i ==> #[trigger] vv[j] == v@,
            tried_before(with_param(pair_views(base@), name@, v@), history@),
        decreases vals.len() - i,
    {
        assert(vv[i as int] == vals@[i as int]@);
        if vals[i] != *v {
            proof {
                lemma_first_other(vv, v@, i as int);
            }
            return set_param(base, name, &vals[i]);
        }
        i += 1;
    }
    assert(!exists|a: int| 0 <= a < vv.len() && vv[a] != v@);
    cfg
}

/// Gradient-guided tuning: one parameter at a time.
pub struct GradientGuidedTuning {
    /// How many of the latest runs are checked for a plateau.
    pub plateau_window: usize,
}

impl GradientGuidedTuning {
    /// A tuner that checks the latest `plateau_window` runs for a plateau.
    pub fn new(plateau_window: usize) -> (r: Self)
        ensures
            r.plateau_window == plateau_window,
    {
        GradientGuidedTuning { plateau_window }
    }

    /// The strategy's name.
    pub fn name(&self) -> (r: &'static str)
        ensures
            r@ == "gradient_guided_tuning"@,
    {
        "gradient_guided_tuning"
    }

    /// Where the runs checked for a plateau start in a history of `len` runs.
    pub fn recent_start(&self, len: usize) -> (r: usize)
        ensures
            r == (if self.plateau_window >= len {
                0
            } else {
                len - self.plateau_window
            }),
    {
        len.saturating_sub(self.plateau_window)
    }

    /// The suggestion for the given signals and draws (see `tuning_suggestion`).
    #[verifier::rlimit(50)]
    pub fn suggest_with(
        &self,
        space: &[(String, Vec<String>)],
        production: &Vec<(String, String)>,
        history: &[TrialRecord],
        plateaued: bool,
        gradient: &Option<GradientChoice>,
        d: &TuningDraws,
    ) -> (r: Result<Proposal, StrategyError>)
        ensures
            outcome_is(
                r,
                tuning_suggestion(
                    space_views(space@),
                    pair_views(production@),
                    history@,
                    plateaued,
                    gradient_view(*gradient),
                    *d,
                ),
            ),
    {
        let ghost sv = space_views(space@);
        if history.len() < 2 && space.len() > 0 {
            let p = d.start_param % space.len();
            assert(sv[p as int] == (space@[p as int].0@, space@[p as int].1@.map_values(|v: String| v@)));
            if space[p].1.len() > 0 {
                let name = &space[p].0;
                let v = &space[p].1[d.start_value % space[p].1.len()];
                let mut why: Vec<char> = Vec::new();
                extend_str(&mut why, "Insufficient history (");
                let digits = decimal_chars(history.len() as u64);
                extend_chars(&mut why, &digits);
                extend_str(&mut why, "). Exploring ");
                extend_str(&mut why, name.as_str());
                extend_str(&mut why, ".");
                let text = string_of(&why);
                return Ok(one_change_exec(production, name, v, text));
            }
        }
        let base = base_config(history, production);
        let u = untried_position(history, space);
        let u_ok = match u {
            Some(k) => space[k].1.len() > 0,
            None => false,
        };
        if plateaued {
            if u_ok {
                let k = u.unwrap();
                assert(sv[k as int] == (space@[k as int].0@, space@[k as int].1@.map_values(|v: String| v@)));
                let name = &space[k].0;
                let v = &space[k].1[d.untried_value % space[k].1.len()];
                let why = joined("Plateau detected. Exploring untried dimension: ", name.as_str());
                return Ok(one_change_exec(&base, name, v, why));
            }
            return expand_range_exec(space, &base, d);
        }
        if d.explore && u_ok {
            let k = u.unwrap();
            assert(sv[k as int] == (space@[k as int].0@, space@[k as int].1@.map_values(|v: String| v@)));
            let name = &space[k].0;
            let v = &space[k].1[d.untried_value % space[k].1.len()];
            let why = joined("Exploring untried dimension: ", name.as_str());
            return Ok(one_change_exec(&base, name, v, why));
        }
        match gradient {
            Some(g) => {
                if g.param < space.len() {
                    let p = g.param;
                    assert(sv[p as int] == (space@[p as int].0@, space@[p as int].1@.map_values(|v: String| v@)));
                    let name = &space[p].0;
                    let vals = &space[p].1;
                    match gradient_position(g.direction, &g.value_keys, vals.len(), d.gradient_value) {
                        Some(i) => {
                            let cfg = gradient_config_exec(&base, name, vals, &vals[i], history);
                            assert(vals@[i as int]@ == vals@.map_values(|s: String| s@)[i as int]);
                            let mut changed: Vec<(String, String)> = Vec::new();
                            match lookup_param(production, name) {
                                Some(pv) => {
                                    match lookup_param(&cfg, name) {
                                        Some(cv) => {
                                            if *cv != *pv {
                                                changed.push((name.clone(), cv.clone()));
                                            }
                                        },
                                        None => {},
                                    }
                                },
                                None => {},
                            }
                            proof {
                                if lookup(pair_views(production@), name@) is Some {
                                    lemma_with_param_has(
                                        pair_views(base@),
                                        name@,
                                        vals@.map_values(|s: String| s@),
                                        vals@[i as int]@,
                                        history@,
                                    );
                                }
                            }
                            let mut why: Vec<char> = Vec::new();
                            extend_str(&mut why, "Gradient-guided: ");
                            extend_str(&mut why, name.as_str());
                            extend_str(&mut why, " (");
                            extend_str(
                                &mut why,
                                match g.direction {
                                    GradientDirection::IncreaseHelps => "IncreaseHelps",
                                    GradientDirection::DecreaseHelps => "DecreaseHelps",
                                    GradientDirection::Inconclusive => "Inconclusive",
                                },
                            );
                            extend_str(&mut why, ", avg_delta=");
                            extend_str(&mut why, g.delta_text.as_str());
                            extend_str(&mut why, ")");
                            let rationale = string_of(&why);
                            assert(pair_views(changed@) =~= (match lookup(pair_views(production@), name@) {
                                Some(pv) => if lookup(pair_views(cfg@), name@) != Some(pv) {
                                    seq![(name@, lookup(pair_views(cfg@), name@)->0)]
                                } else {
                                    seq![]
                                },
                                None => seq![],
                            }));
                            return Ok(Proposal { params: cfg, changed, rationale });
                        },
                        None => {},
                    }
                }
            },
            None => {},
        }
        random_change_exec(space, &base, d)
    }
}

/// `rand::random::<bool>()` with the thread-local generator: a fair coin.
/// Nothing is claimed of the outcome.
#[verifier::external_body]
fn random_coin() -> (r: bool) {
    rand::random::<bool>()
}

fn draw_below(n: usize) -> (r: usize)
    ensures
        n > 0 ==> r < n,
        n == 0 ==> r == 0,
{
    if n == 0 {
        0
    } else {
        random_below(n)
    }
}

impl GradientGuidedTuning {
    /// A suggestion with fresh random draws: whatever the draws, it is the
    /// one `tuning_suggestion` gives for them.
    pub fn suggest(
        &self,
        space: &[(String, Vec<String>)],
        production: &Vec<(String, String)>,
        history: &[TrialRecord],
        plateaued: bool,
        gradient: &Option<GradientChoice>,
    ) -> (r: Result<Proposal, StrategyError>)
        ensures
            exists|d: TuningDraws|
                outcome_is(
                    r,
                    #[trigger] tuning_suggestion(
                        space_views(space@),
                        pair_views(production@),
                        history@,
                        plateaued,
                        gradient_view(*gradient),
                        d,
                    ),
                ),
    {
        let start_param = draw_below(space.len());
        let start_value = if start_param < space.len() {
            draw_below(space[start_param].1.len())
        } else {
            0
        };
        let untried_value = match untried_position(history, space) {
            Some(k) => draw_below(space[k].1.len()),
            None => 0,
        };
        let gradient_value = match gradient {
            Some(g) => if g.param < space.len() {
                draw_below(space[g.param].1.len())
            } else {
                0
            },
            None => 0,
        };
        let random_param = draw_below(space.len());
        let random_value = if random_param < space.len() {
            draw_below(space[random_param].1.len())
        } else {
            0
        };
        let d = TuningDraws {
            start_param,
            start_value,
            untried_value,
            explore: random_coin(),
            gradient_value,
            expand_param: draw_below(space.len()),
            random_param,
            random_value,
        };
        self.suggest_with(space, production, history, plateaued, gradient, &d)
    }
}

/// A gradient configuration always holds the parameter it changes.
proof fn lemma_with_param_has(
    base: Seq<(Seq<char>, Seq<char>)>,
    name: Seq<char>,
    values: Seq<Seq<char>>,
    v: Seq<char>,
    history: Seq<TrialRecord>,
)
    ensures
        lookup(gradient_config(base, name, values, v, history), name) is Some,
{
    assert forall|w: Seq<char>| lookup(#[trigger] with_param(base, name, w), name) is Some by {
        lemma_with_param_lookup(base, name, w);
    }
}

proof fn lemma_with_param_lookup(cfg: Seq<(Seq<char>, Seq<char>)>, k: Seq<char>, v: Seq<char>)
    ensures
        lookup(with_param(cfg, k, v), k) == Some(v),
    decreases cfg.len(),
{
    if lookup(cfg, k) is Some {
        let m = with_param(cfg, k, v);
        assert(cfg.len() > 0);
        if cfg[0].0 == k {
            assert(m[0] == (k, v));
        } else {
            assert(m[0] == cfg[0]);
            assert(lookup(cfg.drop_first(), k) is Some);
            assert(m.drop_first() =~= with_param(cfg.drop_first(), k, v));
            lemma_with_param_lookup(cfg.drop_first(), k, v);
        }
    } else {
        lemma_lookup_none_all(cfg, k);
        lemma_lookup_pushed(cfg, k, v);
    }
}

proof fn lemma_lookup_pushed(cfg: Seq<(Seq<char>, Seq<char>)>, k: Seq<char>, v: Seq<char>)
    requires
        forall|i: int| 0 <= i < cfg.len() ==> (#[trigger] cfg[i]).0 != k,
    ensures
        lookup(cfg.push((k, v)), k) == Some(v),
    decreases cfg.len(),
{
    if cfg.len() > 0 {
        assert(cfg.push((k, v)).drop_first() =~= cfg.drop_first().push((k, v)));
        assert(cfg.push((k, v))[0] == cfg[0]);
        assert forall|i: int| 0 <= i < cfg.drop_first().len() implies (#[trigger] cfg.drop_first()[i]).0 != k by {
            assert(cfg.drop_first()[i] == cfg[i + 1]);
        }
        lemma_lookup_pushed(cfg.drop_first(), k, v);
    } else {
        assert(cfg.push((k, v))[0] == (k, v));
    }
}


proof fn lemma_with_param_lookup_other(cfg: Seq<(Seq<char>, Seq<char>)>, k: Seq<char>, v: Seq<char>, j: Seq<char>)
    requires
        j != k,
    ensures
        lookup(with_param(cfg, k, v), j) == lookup(cfg, j),
    decreases cfg.len(),
{
    let m = with_param(cfg, k, v);
    if lookup(cfg, k) is Some {
        if cfg.len() > 0 {
            assert(m[0] == (if cfg[0].0 == k { (k, v) } else { cfg[0] }));
            if cfg[0].0 != k {
                assert(lookup(cfg.drop_first(), k) is Some);
            }
            if cfg[0].0 == k || lookup(cfg.drop_first(), k) is Some {
                assert(m.drop_first() =~= cfg.drop_first().map_values(
                    |e: (Seq<char>, Seq<char>)|
                        if e.0 == k {
                            (k, v)
                        } else {
                            e
                        },
                ));
                if cfg[0].0 != j {
                    if lookup(cfg.drop_first(), k) is Some {
                        assert(m.drop_first() =~= with_param(cfg.drop_first(), k, v));
                        lemma_with_param_lookup_other(cfg.drop_first(), k, v, j);
                    } else {
                        lemma_lookup_none_all(cfg.drop_first(), k);
                        assert(m.drop_first() =~= cfg.drop_first());
                    }
                }
            }
        }
    } else {
        lemma_lookup_after_push(cfg, (k, v), j);
    }
}

proof fn lemma_lookup_after_push(cfg: Seq<(Seq<char>, Seq<char>)>, e: (Seq<char>, Seq<char>), j: Seq<char>)
    requires
        e.0 != j,
    ensures
        lookup(cfg.push(e), j) == lookup(cfg, j),
    decreases cfg.len(),
{
    if cfg.len() > 0 {
        assert(cfg.push(e)[0] == cfg[0]);
        assert(cfg.push(e).drop_first() =~= cfg.drop_first().push(e));
        lemma_lookup_after_push(cfg.drop_first(), e, j);
    } else {
        assert(cfg.push(e)[0] == e);
        assert(cfg.push(e).drop_first() =~= cfg);
    }
}

/// A configuration changed in parameter `name` only: every other parameter
/// keeps its value from `start`.
pub open spec fn changes_only(cfg: Seq<(Seq<char>, Seq<char>)>, start: Seq<(Seq<char>, Seq<char>)>, name: Seq<char>) -> bool {
    forall|k: Seq<char>| k != name ==> #[trigger] lookup(cfg, k) == lookup(start, k)
}

/// Gradient-guided tuning changes one parameter at a time: every
/// suggestion keeps all other parameters as the configuration it starts
/// from has them (the production one on a cold start, else the best run's).
pub proof fn lemma_tuning_changes_one_parameter(
    sv: Seq<(Seq<char>, Seq<Seq<char>>)>,
    production: Seq<(Seq<char>, Seq<char>)>,
    history: Seq<TrialRecord>,
    plateaued: bool,
    gradient: Option<(int, GradientDirection, Seq<Option<i64>>, Seq<char>)>,
    d: TuningDraws,
)
    ensures
        tuning_suggestion(sv, production, history, plateaued, gradient, d) matches Ok(v) ==> exists|name: Seq<char>|
            #![trigger changes_only(v.0, production, name)]
            #![trigger changes_only(v.0, base_of(history, production), name)]
            changes_only(v.0, production, name) || changes_only(v.0, base_of(history, production), name),
{
    assert forall|cfg: Seq<(Seq<char>, Seq<char>)>, k: Seq<char>, w: Seq<char>|
        changes_only(#[trigger] with_param(cfg, k, w), cfg, k) by {
        assert forall|j: Seq<char>| j != k implies #[trigger] lookup(with_param(cfg, k, w), j) == lookup(cfg, j) by {
            lemma_with_param_lookup_other(cfg, k, w, j);
        }
    }
    match tuning_suggestion(sv, production, history, plateaued, gradient, d) {
        Ok(v) => {
            let base = base_of(history, production);
            if history.len() < 2 && sv.len() > 0 && sv[drawn(d.start_param, sv.len())].1.len() > 0 {
                let (name, vals) = sv[drawn(d.start_param, sv.len())];
                assert(changes_only(v.0, production, name));
            } else {
                let u = first_untried_position(history, sv);
                let u_ok = u is Some && sv[u->0].1.len() > 0;
                if plateaued && u_ok || !plateaued && d.explore && u_ok {
                    assert(changes_only(v.0, base, sv[u->0].0));
                } else if plateaued {
                    assert(changes_only(v.0, base, sv[drawn(d.expand_param, sv.len())].0));
                } else {
                    let r = random_change(sv, base, d);
                    match gradient {
                        Some((p, dir, keys, delta)) => {
                            if 0 <= p < sv.len() && gradient_pick(dir, keys, sv[p].1.len(), d.gradient_value) is Some {
                                let (name, vals) = sv[p];
                                let i = gradient_pick(dir, keys, vals.len(), d.gradient_value)->0;
                                let cfg = with_param(base, name, vals[i]);
                                if tried_before(cfg, history) && exists|a: int| 0 <= a < vals.len() && vals[a] != vals[i] {
                                    let a = choose|a: int|
                                        0 <= a < vals.len() && vals[a] != vals[i] && forall|j: int|
                                            0 <= j < a ==> #[trigger] vals[j] == vals[i];
                                    assert(changes_only(with_param(base, name, vals[a]), base, name));
                                }
                                assert(changes_only(v.0, base, name));
                            } else {
                                assert(changes_only(v.0, base, sv[drawn(d.random_param, sv.len())].0));
                            }
                        },
                        None => {
                            assert(changes_only(v.0, base, sv[drawn(d.random_param, sv.len())].0));
                        },
                    }
                }
            }
        },
        Err(_) => {},
    }
}


/// Outside a cold start, every suggestion changes one parameter of the
/// configuration it starts from.
proof fn lemma_tuning_changes_from_base(
    sv: Seq<(Seq<char>, Seq<Seq<char>>)>,
    production: Seq<(Seq<char>, Seq<char>)>,
    history: Seq<TrialRecord>,
    plateaued: bool,
    gradient: Option<(int, GradientDirection, Seq<Option<i64>>, Seq<char>)>,
    d: TuningDraws,
)
    requires
        history.len() >= 2,
    ensures
        tuning_suggestion(sv, production, history, plateaued, gradient, d) matches Ok(v) ==> exists|name: Seq<char>|
            #[trigger] changes_only(v.0, base_of(history, production), name),
{
    assert forall|cfg: Seq<(Seq<char>, Seq<char>)>, k: Seq<char>, w: Seq<char>|
        changes_only(#[trigger] with_param(cfg, k, w), cfg, k) by {
        assert forall|j: Seq<char>| j != k implies #[trigger] lookup(with_param(cfg, k, w), j) == lookup(cfg, j) by {
            lemma_with_param_lookup_other(cfg, k, w, j);
        }
    }
    match tuning_suggestion(sv, production, history, plateaued, gradient, d) {
        Ok(v) => {
            let base = base_of(history, production);
            let u = first_untried_position(history, sv);
            let u_ok = u is Some && sv[u->0].1.len() > 0;
            if plateaued && u_ok || !plateaued && d.explore && u_ok {
                assert(changes_only(v.0, base, sv[u->0].0));
            } else if plateaued {
                assert(changes_only(v.0, base, sv[drawn(d.expand_param, sv.len())].0));
            } else {
                match gradient {
                    Some((p, dir, keys, delta)) => {
                        if 0 <= p < sv.len() && gradient_pick(dir, keys, sv[p].1.len(), d.gradient_value) is Some {
                            let (name, vals) = sv[p];
                            let i = gradient_pick(dir, keys, vals.len(), d.gradient_value)->0;
                            let cfg = with_param(base, name, vals[i]);
                            if tried_before(cfg, history) && exists|a: int| 0 <= a < vals.len() && vals[a] != vals[i] {
                                let a = choose|a: int|
                                    0 <= a < vals.len() && vals[a] != vals[i] && forall|j: int|
                                        0 <= j < a ==> #[trigger] vals[j] == vals[i];
                                assert(changes_only(with_param(base, name, vals[a]), base, name));
                            }
                            assert(changes_only(v.0, base, name));
                        } else {
                            assert(changes_only(v.0, base, sv[drawn(d.random_param, sv.len())].0));
                        }
                    },
                    None => {
                        assert(changes_only(v.0, base, sv[drawn(d.random_param, sv.len())].0));
                    },
                }
            }
        },
        Err(_) => {},
    }
}

/// Outside the cold start (two runs or more), every gradient-guided
/// suggestion builds on the run with the greatest primary metric: all
/// parameters but the one it changes keep the values that run has. Among
/// equal bests the last counts; metrics are compared as numbers (none NaN).
pub proof fn lemma_tuning_builds_on_best_run(
    sv: Seq<(Seq<char>, Seq<Seq<char>>)>,
    production: Seq<(Seq<char>, Seq<char>)>,
    history: Seq<TrialRecord>,
    plateaued: bool,
    gradient: Option<(int, GradientDirection, Seq<Option<i64>>, Seq<char>)>,
    d: TuningDraws,
    best: int,
)
    requires
        history.len() >= 2,
        forall|i: int| 0 <= i < history.len() && (#[trigger] history[i]).metric is Some ==> !is_nan_key(
            history[i].metric->0,
        ),
        0 <= best < history.len(),
        history[best].metric is Some,
        forall|i: int| 0 <= i < history.len() && (#[trigger] history[i]).metric is Some ==> history[i].metric->0
            <= history[best].metric->0,
        forall|i: int| best < i < history.len() && (#[trigger] history[i]).metric is Some ==> history[i].metric->0
            < history[best].metric->0,
    ensures
        tuning_suggestion(sv, production, history, plateaued, gradient, d) matches Ok(v) ==> exists|name: Seq<char>|
            #[trigger] changes_only(v.0, params_of(history[best]), name),
{
    lemma_base_is_best_run(history, production, best);
    lemma_tuning_changes_from_base(sv, production, history, plateaued, gradient, d);
}

/// Outside the cold start, when no run recorded the primary metric, every
/// gradient-guided suggestion builds on the production configuration.
pub proof fn lemma_tuning_builds_on_production(
    sv: Seq<(Seq<char>, Seq<Seq<char>>)>,
    production: Seq<(Seq<char>, Seq<char>)>,
    history: Seq<TrialRecord>,
    plateaued: bool,
    gradient: Option<(int, GradientDirection, Seq<Option<i64>>, Seq<char>)>,
    d: TuningDraws,
)
    requires
        history.len() >= 2,
        forall|i: int| 0 <= i < history.len() ==> (#[trigger] history[i]).metric is None,
    ensures
        tuning_suggestion(sv, production, history, plateaued, gradient, d) matches Ok(v) ==> exists|name: Seq<char>|
            #[trigger] changes_only(v.0, production, name),
{
    let keys = history.map_values(|r: TrialRecord| r.metric);
    assert forall|i: int| 0 <= i < keys.len() implies #[trigger] keys[i] is None by {
        assert(keys[i] == history[i].metric);
    }
    crate::store::lemma_max_pick_is_last_maximum(keys, history.len());
    assert(base_of(history, production) == production);
    lemma_tuning_changes_from_base(sv, production, history, plateaued, gradient, d);
}

proof fn lemma_base_is_best_run(history: Seq<TrialRecord>, production: Seq<(Seq<char>, Seq<char>)>, best: int)
    requires
        forall|i: int| 0 <= i < history.len() && (#[trigger] history[i]).metric is Some ==> !is_nan_key(
            history[i].metric->0,
        ),
        0 <= best < history.len(),
        history[best].metric is Some,
        forall|i: int| 0 <= i < history.len() && (#[trigger] history[i]).metric is Some ==> history[i].metric->0
            <= history[best].metric->0,
        forall|i: int| best < i < history.len() && (#[trigger] history[i]).metric is Some ==> history[i].metric->0
            < history[best].metric->0,
    ensures
        base_of(history, production) == params_of(history[best]),
{
    let keys = history.map_values(|r: TrialRecord| r.metric);
    assert forall|i: int| 0 <= i < keys.len() implies #[trigger] keys[i] == history[i].metric by {}
    assert forall|i: int| 0 <= i < keys.len() && #[trigger] keys[i] is Some implies !is_nan_key(keys[i]->0) by {
        assert(keys[i] == history[i].metric);
    }
    crate::store::lemma_max_pick_is_last_maximum(keys, history.len());
    assert(keys[best] is Some);
    match max_pick(keys, history.len()) {
        Some(p) => {
            assert(keys[p] == history[p].metric);
            if p < best {
                assert(keys[best] == history[best].metric);
            } else if p > best {
                assert(keys[best] == history[best].metric);
            }
        },
        None => {
            assert(keys[best] is None);
        },
    }
}

} // verus!
