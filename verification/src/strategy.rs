//! Proposal strategies: choosing a strategy by name, random search, grid
//! search over the sweep space, and the automatic choice of a delegate.
//!
//! A sweep space is a list of parameters, each with its candidate values;
//! parameter values are held as JSON text (see `trial::TrialRecord`).

use vstd::prelude::*;
use crate::text::{decimal, decimal_chars, extend_chars, extend_str, pair_views, string_of};
use crate::trial::{TrialRecord, config_already_tried, lookup, lookup_param, tried_before};

verus! {

// ---------------------------------------------------------------------------
// Strategies by name
// ---------------------------------------------------------------------------

/// The strategies of the library.
#[derive(Debug, Clone, Copy, PartialEq, Eq)]
pub enum StrategyKind {
    GradientGuided,
    Random,
    Grid,
    Tpe,
    Nsga2,
    Ucb1,
    CmaEs,
    Pbt,
    Auto,
    Hyperband,
}

/// The strategy that a name selects, with the aliases each one accepts.
pub open spec fn kind_for_name(name: Seq<char>) -> Option<StrategyKind> {
    if name == "gradient_guided"@ || name == "gradient_guided_tuning"@ {
        Some(StrategyKind::GradientGuided)
    } else if name == "random"@ || name == "random_search"@ {
        Some(StrategyKind::Random)
    } else if name == "grid"@ || name == "grid_search"@ {
        Some(StrategyKind::Grid)
    } else if name == "tpe"@ || name == "tpe_search"@ {
        Some(StrategyKind::Tpe)
    } else if name == "nsga2"@ || name == "nsga_ii"@ {
        Some(StrategyKind::Nsga2)
    } else if name == "ucb1"@ || name == "tree_search"@ {
        Some(StrategyKind::Ucb1)
    } else if name == "cmaes"@ || name == "cma_es"@ {
        Some(StrategyKind::CmaEs)
    } else if name == "pbt"@ || name == "population_based"@ {
        Some(StrategyKind::Pbt)
    } else if name == "auto"@ || name == "auto_strategy"@ {
        Some(StrategyKind::Auto)
    } else if name == "hyperband"@ {
        Some(StrategyKind::Hyperband)
    } else {
        None
    }
}

/// The name each strategy reports.
pub open spec fn kind_name(k: StrategyKind) -> Seq<char> {
    match k {
        StrategyKind::GradientGuided => "gradient_guided_tuning"@,
        StrategyKind::Random => "random"@,
        StrategyKind::Grid => "grid"@,
        StrategyKind::Tpe => "tpe"@,
        StrategyKind::Nsga2 => "nsga2"@,
        StrategyKind::Ucb1 => "ucb1"@,
        StrategyKind::CmaEs => "cmaes"@,
        StrategyKind::Pbt => "pbt"@,
        StrategyKind::Auto => "auto"@,
        StrategyKind::Hyperband => "hyperband"@,
    }
}

impl StrategyKind {
    /// The name the strategy reports.
    pub fn name(&self) -> (r: &'static str)
        ensures
            r@ == kind_name(*self),
    {
        match self {
            StrategyKind::GradientGuided => "gradient_guided_tuning",
            StrategyKind::Random => "random",
            StrategyKind::Grid => "grid",
            StrategyKind::Tpe => "tpe",
            StrategyKind::Nsga2 => "nsga2",
            StrategyKind::Ucb1 => "ucb1",
            StrategyKind::CmaEs => "cmaes",
            StrategyKind::Pbt => "pbt",
            StrategyKind::Auto => "auto",
            StrategyKind::Hyperband => "hyperband",
        }
    }
}

/// Why a strategy gave no proposal.
#[derive(Debug, PartialEq, Eq)]
pub enum StrategyError {
    /// No strategy has this name.
    UnknownStrategy(String),
    /// This parameter has no candidate values.
    EmptyValues(String),
    /// Every one of this many grid combinations was tried already.
    Exhausted(usize),
    /// The sweep space has no parameter.
    EmptySpace,
    /// The parameter whose range was to be expanded has no candidate values.
    EmptyRange,
}

/// The sentence that describes a strategy error.
pub open spec fn error_text(e: StrategyError) -> Seq<char> {
    match e {
        StrategyError::UnknownStrategy(name) => "Unknown strategy: "@ + name@,
        StrategyError::EmptyValues(param) => "Empty values for "@ + param@,
        StrategyError::Exhausted(n) => "Grid search exhausted all "@ + decimal(n as nat)
            + " combinations"@,
        StrategyError::EmptySpace => "Empty sweep space"@,
        StrategyError::EmptyRange => "Empty values"@,
    }
}

impl StrategyError {
    /// The sentence that describes the error.
    pub fn message(&self) -> (r: String)
        ensures
            r@ == error_text(*self),
    {
        let mut out: Vec<char> = Vec::new();
        match self {
            StrategyError::UnknownStrategy(name) => {
                extend_str(&mut out, "Unknown strategy: ");
                extend_str(&mut out, name.as_str());
            },
            StrategyError::EmptyValues(param) => {
                extend_str(&mut out, "Empty values for ");
                extend_str(&mut out, param.as_str());
            },
            StrategyError::Exhausted(n) => {
                extend_str(&mut out, "Grid search exhausted all ");
                let d = decimal_chars(*n as u64);
                extend_chars(&mut out, &d);
                extend_str(&mut out, " combinations");
            },
            StrategyError::EmptySpace => {
                extend_str(&mut out, "Empty sweep space");
            },
            StrategyError::EmptyRange => {
                extend_str(&mut out, "Empty values");
            },
        }
        string_of(&out)
    }
}

/// The strategy named `name` (with its aliases); an unknown name is an error.
pub fn build_strategy(name: &str) -> (r: Result<StrategyKind, StrategyError>)
    ensures
        match kind_for_name(name@) {
            Some(k) => r == Ok::<StrategyKind, StrategyError>(k),
            None => r matches Err(StrategyError::UnknownStrategy(n)) && n@ == name@,
        },
{
    let s = name.to_owned();
    if s == "gradient_guided".to_owned() || s == "gradient_guided_tuning".to_owned() {
        Ok(StrategyKind::GradientGuided)
    } else if s == "random".to_owned() || s == "random_search".to_owned() {
        Ok(StrategyKind::Random)
    } else if s == "grid".to_owned() || s == "grid_search".to_owned() {
        Ok(StrategyKind::Grid)
    } else if s == "tpe".to_owned() || s == "tpe_search".to_owned() {
        Ok(StrategyKind::Tpe)
    } else if s == "nsga2".to_owned() || s == "nsga_ii".to_owned() {
        Ok(StrategyKind::Nsga2)
    } else if s == "ucb1".to_owned() || s == "tree_search".to_owned() {
        Ok(StrategyKind::Ucb1)
    } else if s == "cmaes".to_owned() || s == "cma_es".to_owned() {
        Ok(StrategyKind::CmaEs)
    } else if s == "pbt".to_owned() || s == "population_based".to_owned() {
        Ok(StrategyKind::Pbt)
    } else if s == "auto".to_owned() || s == "auto_strategy".to_owned() {
        Ok(StrategyKind::Auto)
    } else if s == "hyperband".to_owned() {
        Ok(StrategyKind::Hyperband)
    } else {
        Err(StrategyError::UnknownStrategy(s))
    }
}

// ---------------------------------------------------------------------------
// Sweep spaces and proposals
// ---------------------------------------------------------------------------

/// The views of a sweep space: each parameter with its candidate values.
pub open spec fn space_views(space: Seq<(String, Vec<String>)>) -> Seq<(Seq<char>, Seq<Seq<char>>)> {
    space.map_values(|p: (String, Vec<String>)| (p.0@, p.1@.map_values(|v: String| v@)))
}

/// A proposed configuration.
#[derive(Debug)]
pub struct Proposal {
    /// The full configuration, parameter by parameter.
    pub params: Vec<(String, String)>,
    /// The parameters that differ from the production configuration.
    pub changed: Vec<(String, String)>,
    /// Why this configuration.
    pub rationale: String,
}

/// The entries of `params` whose value differs from the production configuration's.
pub open spec fn changed_from(
    params: Seq<(Seq<char>, Seq<char>)>,
    production: Seq<(Seq<char>, Seq<char>)>,
) -> Seq<(Seq<char>, Seq<char>)> {
    params.filter(|p: (Seq<char>, Seq<char>)| lookup(production, p.0) != Some(p.1))
}

pub(crate) fn copy_pairs(v: &Vec<(String, String)>) -> (r: Vec<(String, String)>)
    ensures
        pair_views(r@) == pair_views(v@),
{
    let mut r: Vec<(String, String)> = Vec::new();
    let mut i: usize = 0;
    while i < v.len()
        invariant
            i <= v.len(),
            pair_views(r@) == pair_views(v@).take(i as int),
        decreases v.len() - i,
    {
        let ghost before = pair_views(r@);
        r.push((v[i].0.clone(), v[i].1.clone()));
        assert(pair_views(r@) =~= before.push((v@[i as int].0@, v@[i as int].1@)));
        i += 1;
        assert(pair_views(r@) =~= pair_views(v@).take(i as int));
    }
    assert(pair_views(v@).take(v.len() as int) =~= pair_views(v@));
    r
}

/// The entries of `params` that differ from `production`.
pub fn changed_params(params: &Vec<(String, String)>, production: &Vec<(String, String)>) -> (r:
    Vec<(String, String)>)
    ensures
        pair_views(r@) == changed_from(pair_views(params@), pair_views(production@)),
{
    let ghost pv = pair_views(params@);
    let ghost prod = pair_views(production@);
    let ghost pred = |p: (Seq<char>, Seq<char>)| lookup(prod, p.0) != Some(p.1);
    let mut r: Vec<(String, String)> = Vec::new();
    let mut i: usize = 0;
    assert(pv.take(0) =~= Seq::<(Seq<char>, Seq<char>)>::empty());
    while i < params.len()
        invariant
            i <= params.len(),
            pv == pair_views(params@),
            prod == pair_views(production@),
            pred == (|p: (Seq<char>, Seq<char>)| lookup(prod, p.0) != Some(p.1)),
            pair_views(r@) == pv.take(i as int).filter(pred),
        decreases params.len() - i,
    {
        let ghost before = pair_views(r@);
        proof {
            assert(pv.take(i + 1) =~= pv.take(i as int).push(pv[i as int]));
            pv.take(i as int).lemma_filter_push(pv[i as int], pred);
        }
        let keep = match lookup_param(production, &params[i].0) {
            Some(v) => *v != params[i].1,
            None => true,
        };
        if keep {
            r.push((params[i].0.clone(), params[i].1.clone()));
            assert(pair_views(r@) =~= before.push(pv[i as int]));
        }
        i += 1;
    }
    assert(pv.take(params.len() as int) =~= pv);
    r
}

// ---------------------------------------------------------------------------
// Random search
// ---------------------------------------------------------------------------

/// `rand::random_range(0..n)` with the thread-local generator: uniform over
/// `0..n`; the source panics on an empty range, so `n` must be positive.
#[verifier::external_body]
pub(crate) fn random_below(n: usize) -> (r: usize)
    requires
        n > 0,
    ensures
        r < n,
{
    rand::random_range(0..n)
}

/// Pure random sampling from the sweep space.
pub struct RandomSearch;

/// The position of the first parameter without candidate values, if any.
pub open spec fn first_empty(space: Seq<(Seq<char>, Seq<Seq<char>>)>) -> Option<int> {
    if exists|i: int| 0 <= i < space.len() && space[i].1.len() == 0 {
        Some(
            choose|i: int|
                0 <= i < space.len() && space[i].1.len() == 0 && forall|j: int|
                    0 <= j < i ==> space[j].1.len() > 0,
        )
    } else {
        None
    }
}

/// The configuration that picks value `picks[i]` of parameter `i`.
pub open spec fn picked(space: Seq<(Seq<char>, Seq<Seq<char>>)>, picks: Seq<usize>) -> Seq<
    (Seq<char>, Seq<char>),
> {
    Seq::new(space.len(), |i: int| (space[i].0, space[i].1[picks[i] as int]))
}

impl RandomSearch {
    /// The strategy's name.
    pub fn name(&self) -> (r: &'static str)
        ensures
            r@ == "random"@,
    {
        "random"
    }

    /// The proposal that takes value `picks[i]` for parameter `i`.
    pub fn suggest_with(&self, space: &[(String, Vec<String>)], picks: &[usize]) -> (r: Proposal)
        requires
            picks.len() == space.len(),
            forall|i: int| 0 <= i < space.len() ==> #[trigger] picks@[i] < space@[i].1.len(),
        ensures
            pair_views(r.params@) == picked(space_views(space@), picks@),
            pair_views(r.changed@) == pair_views(r.params@),
            r.rationale@ == "Random exploration across all parameters."@,
    {
        let ghost sv = space_views(space@);
        let mut params: Vec<(String, String)> = Vec::new();
        let mut changed: Vec<(String, String)> = Vec::new();
        let mut i: usize = 0;
        while i < space.len()
            invariant
                i <= space.len(),
                picks.len() == space.len(),
                forall|k: int| 0 <= k < space.len() ==> #[trigger] picks@[k] < space@[k].1.len(),
                sv == space_views(space@),
                pair_views(params@) == picked(sv, picks@).take(i as int),
                pair_views(changed@) == pair_views(params@),
            decreases space.len() - i,
        {
            let ghost before = pair_views(params@);
            let v = &space[i].1[picks[i]];
            let ghost entry = (space@[i as int].0@, v@);
            assert(sv[i as int] == (space@[i as int].0@, space@[i as int].1@.map_values(
                |s: String| s@,
            )));
            assert(sv[i as int].1[picks@[i as int] as int] == v@);
            assert(picked(sv, picks@)[i as int] == entry);
            params.push((space[i].0.clone(), v.clone()));
            changed.push((space[i].0.clone(), v.clone()));
            assert(pair_views(params@) =~= before.push(entry));
            assert(pair_views(changed@) =~= before.push(entry));
            assert(picked(sv, picks@).take(i + 1) =~= picked(sv, picks@).take(i as int).push(entry));
            i += 1;
        }
        assert(picked(sv, picks@).take(space.len() as int) =~= picked(sv, picks@));
        Proposal { params, changed, rationale: "Random exploration across all parameters.".to_owned() }
    }

    /// A random configuration: one value drawn uniformly for every parameter.
    /// A parameter without candidate values is an error (the first such one).
    pub fn suggest(&self, space: &[(String, Vec<String>)]) -> (r: Result<Proposal, StrategyError>)
        ensures
            match first_empty(space_views(space@)) {
                Some(i) => r matches Err(StrategyError::EmptyValues(p)) && p@ == space@[i].0@,
                None => r matches Ok(prop) && exists|picks: Seq<usize>|
                    picks.len() == space.len() && (forall|k: int|
                        0 <= k < space.len() ==> #[trigger] picks[k] < space@[k].1.len())
                        && pair_views(prop.params@) == picked(space_views(space@), picks)
                        && pair_views(prop.changed@) == pair_views(prop.params@)
                        && prop.rationale@ == "Random exploration across all parameters."@,
            },
    {
        let ghost sv = space_views(space@);
        let mut picks: Vec<usize> = Vec::new();
        let mut i: usize = 0;
        while i < space.len()
            invariant
                i <= space.len(),
                sv == space_views(space@),
                picks.len() == i,
                forall|k: int| 0 <= k < i ==> #[trigger] picks@[k] < space@[k].1.len(),
                forall|k: int| 0 <= k < i ==> #[trigger] sv[k].1.len() > 0,
            decreases space.len() - i,
        {
            if space[i].1.len() == 0 {
                proof {
                    assert(sv[i as int].1.len() == 0);
                    let f = first_empty(sv);
                    assert(f is Some);
                    let j = f->0;
                    if j < i {
                        assert(sv[j].1.len() > 0);
                    }
                    if j > i {
                        assert(sv[i as int].1.len() > 0);
                    }
                }
                return Err(StrategyError::EmptyValues(space[i].0.clone()));
            }
            let p = random_below(space[i].1.len());
            picks.push(p);
            i += 1;
        }
        assert(first_empty(sv) is None) by {
            assert forall|k: int| 0 <= k < sv.len() implies sv[k].1.len() > 0 by {}
        }
        let r = self.suggest_with(space, picks.as_slice());
        assert(picks@.len() == space.len());
        Ok(r)
    }
}

// ---------------------------------------------------------------------------
// Grid search
// ---------------------------------------------------------------------------

/// Every combination of the candidate values, as configurations: the
/// first parameter varies slowest.
pub open spec fn product(space: Seq<(Seq<char>, Seq<Seq<char>>)>) -> Seq<
    Seq<(Seq<char>, Seq<char>)>,
>
    decreases space.len(),
{
    if space.len() == 0 {
        seq![seq![]]
    } else {
        let last = space.last();
        product(space.drop_last()).flat_map(
            |c: Seq<(Seq<char>, Seq<char>)>|
                last.1.map_values(|v: Seq<char>| c.push((last.0, v))),
        )
    }
}

/// The views of a list of configurations.
pub open spec fn configs_views(v: Seq<Vec<(String, String)>>) -> Seq<Seq<(Seq<char>, Seq<char>)>> {
    v.map_values(|c: Vec<(String, String)>| pair_views(c@))
}

/// Systematic grid search over the sweep space.
pub struct GridSearch;

/// The position of the first combination not tried yet, if any.
pub open spec fn first_untried(combos: Seq<Seq<(Seq<char>, Seq<char>)>>, history: Seq<TrialRecord>) -> Option<int> {
    if exists|i: int| 0 <= i < combos.len() && !tried_before(combos[i], history) {
        Some(
            choose|i: int|
                0 <= i < combos.len() && !tried_before(combos[i], history) && forall|j: int|
                    0 <= j < i ==> tried_before(#[trigger] combos[j], history),
        )
    } else {
        None
    }
}

/// Among the first `n` configurations, an untried one implies a first untried one.
proof fn lemma_first_untried_exists(combos: Seq<Seq<(Seq<char>, Seq<char>)>>, history: Seq<TrialRecord>, n: int)
    requires
        0 <= n <= combos.len(),
        exists|i: int| 0 <= i < n && !tried_before(#[trigger] combos[i], history),
    ensures
        exists|i: int|
            0 <= i < n && !tried_before(#[trigger] combos[i], history) && forall|j: int|
                0 <= j < i ==> tried_before(#[trigger] combos[j], history),
    decreases n,
{
    if exists|i: int| 0 <= i < n - 1 && !tried_before(#[trigger] combos[i], history) {
        lemma_first_untried_exists(combos, history, n - 1);
        let i = choose|i: int|
            0 <= i < n - 1 && !tried_before(#[trigger] combos[i], history) && forall|j: int|
                0 <= j < i ==> tried_before(#[trigger] combos[j], history);
        assert(0 <= i < n && !tried_before(combos[i], history));
    } else {
        let k = choose|i: int| 0 <= i < n && !tried_before(#[trigger] combos[i], history);
        assert(k == n - 1);
        assert forall|j: int| 0 <= j < n - 1 implies tried_before(#[trigger] combos[j], history) by {}
    }
}

/// Grid search never proposes a configuration that was tried: it takes the
/// first untried combination of the sweep space, every combination before
/// it was tried, and it reports exhaustion only when every combination was.
pub proof fn lemma_grid_skips_tried(space: Seq<(Seq<char>, Seq<Seq<char>>)>, history: Seq<TrialRecord>)
    ensures
        ({
            let combos = product(space);
            match first_untried(combos, history) {
                Some(i) => {
                    &&& 0 <= i < combos.len()
                    &&& !tried_before(combos[i], history)
                    &&& forall|j: int| 0 <= j < i ==> tried_before(#[trigger] combos[j], history)
                },
                None => forall|i: int| 0 <= i < combos.len() ==> tried_before(#[trigger] combos[i], history),
            }
        }),
{
    let combos = product(space);
    if exists|i: int| 0 <= i < combos.len() && !tried_before(#[trigger] combos[i], history) {
        lemma_first_untried_exists(combos, history, combos.len() as int);
    }
}

impl GridSearch {
    /// The strategy's name.
    pub fn name(&self) -> (r: &'static str)
        ensures
            r@ == "grid"@,
    {
        "grid"
    }

    /// Every combination of the candidate values, parameters in the order of
    /// `space`. Parameter names come from a map and so are distinct; the
    /// contract holds for any list, a repeated name giving a repeated entry.
    pub fn cartesian_product(space: &[(String, Vec<String>)]) -> (r: Vec<Vec<(String, String)>>)
        ensures
            configs_views(r@) == product(space_views(space@)),
    {
        let ghost sv = space_views(space@);
        let mut combos: Vec<Vec<(String, String)>> = Vec::new();
        combos.push(Vec::new());
        assert(pair_views(combos@[0]@) =~= Seq::<(Seq<char>, Seq<char>)>::empty());
        assert(sv.take(0).len() == 0);
        assert(configs_views(combos@) =~= product(sv.take(0)));
        let mut i: usize = 0;
        while i < space.len()
            invariant
                i <= space.len(),
                sv == space_views(space@),
                configs_views(combos@) == product(sv.take(i as int)),
            decreases space.len() - i,
        {
            let key = &space[i].0;
            let vals = &space[i].1;
            let ghost last = sv[i as int];
            let ghost prev = product(sv.take(i as int));
            let ghost f = |c: Seq<(Seq<char>, Seq<char>)>|
                last.1.map_values(|v: Seq<char>| c.push((last.0, v)));
            proof {
                assert(sv.take(i + 1).drop_last() =~= sv.take(i as int));
                assert(sv.take(i + 1).last() == last);
                assert(product(sv.take(i + 1)) == prev.flat_map(f));
            }
            let mut next: Vec<Vec<(String, String)>> = Vec::new();
            let mut a: usize = 0;
            assert(configs_views(next@) =~= prev.take(0).flat_map(f));
            while a < combos.len()
                invariant
                    a <= combos.len(),
                    configs_views(combos@) == prev,
                    last == (key@, vals@.map_values(|v: String| v@)),
                    f == (|c: Seq<(Seq<char>, Seq<char>)>|
                        last.1.map_values(|v: Seq<char>| c.push((last.0, v)))),
                    configs_views(next@) == prev.take(a as int).flat_map(f),
                decreases combos.len() - a,
            {
                let ghost before = configs_views(next@);
                let ghost c = prev[a as int];
                let mut b: usize = 0;
                while b < vals.len()
                    invariant
                        b <= vals.len(),
                        a < combos.len(),
                        configs_views(combos@) == prev,
                        c == prev[a as int],
                        last == (key@, vals@.map_values(|v: String| v@)),
                        f == (|c: Seq<(Seq<char>, Seq<char>)>|
                            last.1.map_values(|v: Seq<char>| c.push((last.0, v)))),
                        configs_views(next@) == before + f(c).take(b as int),
                    decreases vals.len() - b,
                {
                    let ghost mid = configs_views(next@);
                    let mut combo = copy_pairs(&combos[a]);
                    combo.push((key.clone(), vals[b].clone()));
                    assert(pair_views(combo@) =~= c.push((key@, vals@[b as int]@)));
                    next.push(combo);
                    assert(configs_views(next@) =~= mid.push(c.push((key@, vals@[b as int]@))));
                    assert(last.1[b as int] == vals@[b as int]@);
                    assert(f(c).len() == vals.len());
                    assert(f(c)[b as int] == c.push((key@, vals@[b as int]@)));
                    assert(f(c).take(b + 1) =~= f(c).take(b as int).push(c.push((key@, vals@[b as int]@))));
                    b += 1;
                }
                assert(f(c).take(vals.len() as int) =~= f(c));
                proof {
                    prev.lemma_flat_map_take_append(f, a as int);
                }
                a += 1;
            }
            assert(prev.take(combos.len() as int) =~= prev);
            combos = next;
            i += 1;
        }
        assert(sv.take(space.len() as int) =~= sv);
        combos
    }

    /// The first combination of the sweep space not tried yet; an error when
    /// every combination was tried.
    pub fn suggest(
        &self,
        space: &[(String, Vec<String>)],
        production: &Vec<(String, String)>,
        history: &[TrialRecord],
    ) -> (r: Result<Proposal, StrategyError>)
        requires
            history.len() < usize::MAX,
        ensures
            ({
                let combos = product(space_views(space@));
                match first_untried(combos, history@) {
                    Some(i) => r matches Ok(p) && pair_views(p.params@) == combos[i] && pair_views(
                        p.changed@,
                    ) == changed_from(combos[i], pair_views(production@)) && p.rationale@
                        == "Grid search: config "@ + decimal((history.len() + 1) as nat)
                        + " of "@ + decimal(combos.len()),
                    None => r == Err::<Proposal, StrategyError>(
                        StrategyError::Exhausted(combos.len() as usize),
                    ),
                }
            }),
    {
        let combos = Self::cartesian_product(space);
        let ghost cv = configs_views(combos@);
        let mut i: usize = 0;
        while i < combos.len()
            invariant
                i <= combos.len(),
                cv == configs_views(combos@),
                cv == product(space_views(space@)),
                history.len() < usize::MAX,
                forall|j: int| 0 <= j < i ==> tried_before(#[trigger] cv[j], history@),
            decreases combos.len() - i,
        {
            let tried = config_already_tried(combos[i].as_slice(), history);
            if !tried {
                proof {
                    assert(cv[i as int] == pair_views(combos@[i as int]@));
                    let f = first_untried(cv, history@);
                    assert(f is Some);
                    let j = f->0;
                    if j < i {
                        assert(tried_before(cv[j], history@));
                    }
                    if j > i {
                        assert(tried_before(cv[i as int], history@));
                    }
                }
                let params = copy_pairs(&combos[i]);
                let changed = changed_params(&combos[i], production);
                let mut text: Vec<char> = Vec::new();
                extend_str(&mut text, "Grid search: config ");
                let n = decimal_chars((history.len() + 1) as u64);
                extend_chars(&mut text, &n);
                extend_str(&mut text, " of ");
                let m = decimal_chars(combos.len() as u64);
                extend_chars(&mut text, &m);
                let rationale = string_of(&text);
                return Ok(Proposal { params, changed, rationale });
            }
            assert(cv[i as int] == pair_views(combos@[i as int]@));
            i += 1;
        }
        assert(first_untried(cv, history@) is None);
        Err(StrategyError::Exhausted(combos.len()))
    }
}

// ---------------------------------------------------------------------------
// Automatic choice of a delegate
// ---------------------------------------------------------------------------

/// The delegate that the automatic strategy picks, given the history length,
/// the number of targets and, for every parameter, whether it has candidate
/// values that are all numbers:
/// a cold start (fewer than 4 results) gets random search; several targets
/// get NSGA-II; a space with no numeric parameter and a space of more than 10
/// parameters get TPE; up to 5 parameters, all numeric, get CMA-ES;
/// otherwise gradient-guided tuning.
pub open spec fn auto_choice(history_len: nat, n_targets: nat, numeric: Seq<bool>) -> StrategyKind {
    let all_numeric = numeric.len() > 0 && forall|i: int| 0 <= i < numeric.len() ==> numeric[i];
    let none_numeric = forall|i: int| 0 <= i < numeric.len() ==> !numeric[i];
    if history_len < 4 {
        StrategyKind::Random
    } else if n_targets > 1 {
        StrategyKind::Nsga2
    } else if !all_numeric && none_numeric {
        StrategyKind::Tpe
    } else if numeric.len() > 10 {
        StrategyKind::Tpe
    } else if numeric.len() <= 5 && all_numeric {
        StrategyKind::CmaEs
    } else {
        StrategyKind::GradientGuided
    }
}

/// The automatic choice classifies the problem in a fixed order: fewer than
/// 4 results always get random search; with at least 4, more than one
/// target always gets NSGA-II, whatever the sweep space; with one target
/// (or none), a space without numeric parameters or with more than 10
/// parameters gets TPE, one of 1 to 5 parameters all numeric gets CMA-ES,
/// and any other (6 to 10 parameters, or a mix) gets gradient-guided tuning.
pub proof fn lemma_auto_choice_order(history_len: nat, n_targets: nat, numeric: Seq<bool>)
    ensures
        history_len < 4 ==> auto_choice(history_len, n_targets, numeric) == StrategyKind::Random,
        history_len >= 4 && n_targets > 1 ==> auto_choice(history_len, n_targets, numeric) == StrategyKind::Nsga2,
        history_len >= 4 && n_targets <= 1 && (forall|i: int| 0 <= i < numeric.len() ==> !numeric[i])
            ==> auto_choice(history_len, n_targets, numeric) == StrategyKind::Tpe,
        history_len >= 4 && n_targets <= 1 && numeric.len() > 10 ==> auto_choice(history_len, n_targets, numeric)
            == StrategyKind::Tpe,
        history_len >= 4 && n_targets <= 1 && 1 <= numeric.len() <= 5 && (forall|i: int|
            0 <= i < numeric.len() ==> numeric[i]) ==> auto_choice(history_len, n_targets, numeric)
            == StrategyKind::CmaEs,
        history_len >= 4 && n_targets <= 1 && numeric.len() <= 10 && (exists|i: int|
            0 <= i < numeric.len() && numeric[i]) && !(numeric.len() <= 5 && forall|i: int|
            0 <= i < numeric.len() ==> numeric[i]) ==> auto_choice(history_len, n_targets, numeric)
            == StrategyKind::GradientGuided,
{
    if numeric.len() > 0 && forall|i: int| 0 <= i < numeric.len() ==> !numeric[i] {
        assert(!numeric[0]);
    }
}

/// Chooses the automatic strategy's delegate.
pub fn auto_select(history_len: usize, n_targets: usize, numeric: &[bool]) -> (r: StrategyKind)
    ensures
        r == auto_choice(history_len as nat, n_targets as nat, numeric@),
{
    let mut all = true;
    let mut none = true;
    let mut i: usize = 0;
    while i < numeric.len()
        invariant
            i <= numeric.len(),
            all == forall|j: int| 0 <= j < i ==> numeric@[j],
            none == forall|j: int| 0 <= j < i ==> !numeric@[j],
        decreases numeric.len() - i,
    {
        if numeric[i] {
            none = false;
        } else {
            all = false;
        }
        i += 1;
    }
    let all_numeric = numeric.len() > 0 && all;
    if history_len < 4 {
        StrategyKind::Random
    } else if n_targets > 1 {
        StrategyKind::Nsga2
    } else if !all_numeric && none {
        StrategyKind::Tpe
    } else if numeric.len() > 10 {
        StrategyKind::Tpe
    } else if numeric.len() <= 5 && all_numeric {
        StrategyKind::CmaEs
    } else {
        StrategyKind::GradientGuided
    }
}

// ---------------------------------------------------------------------------
// Strategies whose proposals are computed in floating point
// ---------------------------------------------------------------------------

/// CMA-ES for continuous parameters.
pub struct CmaEs {
    /// Population per generation (`None`: chosen from the dimensionality).
    pub population_size: Option<usize>,
}

impl CmaEs {
    /// A CMA-ES strategy.
    pub fn new(population_size: Option<usize>) -> (r: Self)
        ensures
            r.population_size == population_size,
    {
        CmaEs { population_size }
    }

    /// The strategy's name.
    pub fn name(&self) -> (r: &'static str)
        ensures
            r@ == "cmaes"@,
    {
        "cmaes"
    }
}

/// Population-based training.
pub struct Pbt {
    /// Number of members in the population.
    pub population_size: usize,
}

impl Pbt {
    /// A PBT strategy.
    pub fn new(population_size: usize) -> (r: Self)
        ensures
            r.population_size == population_size,
    {
        Pbt { population_size }
    }

    /// The strategy's name.
    pub fn name(&self) -> (r: &'static str)
        ensures
            r@ == "pbt"@,
    {
        "pbt"
    }

    /// For a ranked population of `n`: the number of top performers (the
    /// best quarter, rounded up) and the position where the bottom quarter starts.
    pub fn cutoffs(n: usize) -> (r: (usize, usize))
        ensures
            r.0 == ceil_quarter(n as nat),
            r.1 == n - r.0,
            r.0 <= n,
    {
        let top = n / 4 + if n % 4 == 0 {
            0
        } else {
            1
        };
        (top, n - top)
    }
}

/// `ceil(n / 4)`.
pub open spec fn ceil_quarter(n: nat) -> nat {
    n / 4 + if n % 4 == 0 {
        0nat
    } else {
        1nat
    }
}

/// NSGA-II for several objectives.
pub struct NsgaTwo {
    /// Objective metric names (all maximised).
    pub objectives: Vec<String>,
    /// Population per generation.
    pub population_size: usize,
}

impl NsgaTwo {
    /// An NSGA-II strategy.
    pub fn new(objectives: Vec<String>, population_size: usize) -> (r: Self)
        ensures
            r.objectives == objectives,
            r.population_size == population_size,
    {
        NsgaTwo { objectives, population_size }
    }

    /// The strategy's name.
    pub fn name(&self) -> (r: &'static str)
        ensures
            r@ == "nsga2"@,
    {
        "nsga2"
    }
}

} // verus!
