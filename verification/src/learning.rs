//! What was learned from experiment history: which parameters changed
//! between two runs, which parameters were never varied, and the summary of
//! a parameter's gradient signal.
//!
//! Parameter values are held as their JSON text (see `trial::TrialRecord`).

use vstd::prelude::*;
use crate::text::pair_views;
use crate::trial::{TrialRecord, lookup, lookup_param, params_of};

verus! {

/// Which way changing a parameter moves the primary metric.
#[derive(Debug, Clone, Copy, PartialEq, Eq)]
pub enum GradientDirection {
    IncreaseHelps,
    DecreaseHelps,
    Inconclusive,
}

/// How much evidence a gradient rests on.
#[derive(Debug, Clone, Copy, PartialEq, Eq)]
pub enum Confidence {
    /// Five observations or more.
    High,
    /// Two to four observations.
    Medium,
    /// Fewer than two observations.
    Low,
}

/// The confidence that `n` observations give.
pub open spec fn confidence_of(n: nat) -> Confidence {
    if n >= 5 {
        Confidence::High
    } else if n >= 2 {
        Confidence::Medium
    } else {
        Confidence::Low
    }
}

impl Confidence {
    /// The confidence of a gradient resting on `observations` observations.
    pub fn from_observations(observations: usize) -> (r: Confidence)
        ensures
            r == confidence_of(observations as nat),
    {
        if observations >= 5 {
            Confidence::High
        } else if observations >= 2 {
            Confidence::Medium
        } else {
            Confidence::Low
        }
    }
}

/// The direction that the observations of one parameter point to.
///
/// The observations are split into changes that increased the parameter and
/// changes that decreased it; `increase_beats_decrease` says whether the
/// mean metric delta of the increases exceeds that of the decreases, and the
/// `*_sum_positive` flags whether each group's deltas sum to more than zero.
/// With both groups present the means decide; with one group its sum
/// decides (a negative or zero sum points the other way); with neither the
/// gradient is inconclusive.
pub open spec fn direction_of(
    has_increase: bool,
    has_decrease: bool,
    increase_beats_decrease: bool,
    increase_sum_positive: bool,
    decrease_sum_positive: bool,
) -> GradientDirection {
    if has_increase && has_decrease {
        if increase_beats_decrease {
            GradientDirection::IncreaseHelps
        } else {
            GradientDirection::DecreaseHelps
        }
    } else if has_increase {
        if increase_sum_positive {
            GradientDirection::IncreaseHelps
        } else {
            GradientDirection::DecreaseHelps
        }
    } else if has_decrease {
        if decrease_sum_positive {
            GradientDirection::DecreaseHelps
        } else {
            GradientDirection::IncreaseHelps
        }
    } else {
        GradientDirection::Inconclusive
    }
}

impl GradientDirection {
    /// The direction the evidence points to (see `direction_of`).
    pub fn from_evidence(
        has_increase: bool,
        has_decrease: bool,
        increase_beats_decrease: bool,
        increase_sum_positive: bool,
        decrease_sum_positive: bool,
    ) -> (r: GradientDirection)
        ensures
            r == direction_of(
                has_increase,
                has_decrease,
                increase_beats_decrease,
                increase_sum_positive,
                decrease_sum_positive,
            ),
    {
        if has_increase && has_decrease {
            if increase_beats_decrease {
                GradientDirection::IncreaseHelps
            } else {
                GradientDirection::DecreaseHelps
            }
        } else if has_increase {
            if increase_sum_positive {
                GradientDirection::IncreaseHelps
            } else {
                GradientDirection::DecreaseHelps
            }
        } else if has_decrease {
            if decrease_sum_positive {
                GradientDirection::DecreaseHelps
            } else {
                GradientDirection::IncreaseHelps
            }
        } else {
            GradientDirection::Inconclusive
        }
    }
}

/// One parameter that changed between two runs.
#[derive(Debug)]
pub struct ParamDelta {
    pub param: String,
    pub old_value: String,
    pub new_value: String,
}

/// The view of a parameter change.
pub open spec fn delta_view(d: ParamDelta) -> (Seq<char>, Seq<char>, Seq<char>) {
    (d.param@, d.old_value@, d.new_value@)
}

/// The parameters of `curr` that `prev` also has, with another value: for
/// each such entry of `curr`, in order, its name, its old and its new value.
pub open spec fn changed_between(
    prev: Seq<(Seq<char>, Seq<char>)>,
    curr: Seq<(Seq<char>, Seq<char>)>,
) -> Seq<(Seq<char>, Seq<char>, Seq<char>)> {
    curr.filter(
        |e: (Seq<char>, Seq<char>)| lookup(prev, e.0) is Some && lookup(prev, e.0) != Some(e.1),
    ).map_values(|e: (Seq<char>, Seq<char>)| (e.0, lookup(prev, e.0)->0, e.1))
}

/// The parameters that changed from `prev` to `curr`; no learning is drawn
/// from two runs when this is empty.
pub fn changed_parameters(prev: &Vec<(String, String)>, curr: &Vec<(String, String)>) -> (r: Vec<
    ParamDelta,
>)
    ensures
        r@.map_values(|d: ParamDelta| delta_view(d)) == changed_between(
            pair_views(prev@),
            pair_views(curr@),
        ),
{
    let ghost pv = pair_views(prev@);
    let ghost cv = pair_views(curr@);
    let ghost keep = |e: (Seq<char>, Seq<char>)| lookup(pv, e.0) is Some && lookup(pv, e.0) != Some(e.1);
    let ghost f = |e: (Seq<char>, Seq<char>)| (e.0, lookup(pv, e.0)->0, e.1);
    let mut r: Vec<ParamDelta> = Vec::new();
    let mut i: usize = 0;
    assert(cv.take(0) =~= Seq::<(Seq<char>, Seq<char>)>::empty());
    while i < curr.len()
        invariant
            i <= curr.len(),
            pv == pair_views(prev@),
            cv == pair_views(curr@),
            keep == (|e: (Seq<char>, Seq<char>)| lookup(pv, e.0) is Some && lookup(pv, e.0) != Some(
                e.1,
            )),
            f == (|e: (Seq<char>, Seq<char>)| (e.0, lookup(pv, e.0)->0, e.1)),
            r@.map_values(|d: ParamDelta| delta_view(d)) == cv.take(i as int).filter(keep).map_values(f),
        decreases curr.len() - i,
    {
        let ghost before = r@.map_values(|d: ParamDelta| delta_view(d));
        proof {
            assert(cv.take(i + 1) =~= cv.take(i as int).push(cv[i as int]));
            cv.take(i as int).lemma_filter_push(cv[i as int], keep);
        }
        assert(cv[i as int] == (curr@[i as int].0@, curr@[i as int].1@));
        match lookup_param(prev, &curr[i].0) {
            Some(old) => {
                if *old != curr[i].1 {
                    r.push(
                        ParamDelta {
                            param: curr[i].0.clone(),
                            old_value: old.clone(),
                            new_value: curr[i].1.clone(),
                        },
                    );
                    assert(r@.map_values(|d: ParamDelta| delta_view(d)) =~= before.push(
                        f(cv[i as int]),
                    ));
                }
            },
            None => {},
        }
        assert(cv.take(i + 1).filter(keep).map_values(f) =~= if keep(cv[i as int]) {
            cv.take(i as int).filter(keep).map_values(f).push(f(cv[i as int]))
        } else {
            cv.take(i as int).filter(keep).map_values(f)
        });
        i += 1;
    }
    assert(cv.take(curr.len() as int) =~= cv);
    r
}

/// Parameter `key` differs between the first run and some later run that
/// also has it.
pub open spec fn varied(history: Seq<TrialRecord>, key: Seq<char>) -> bool {
    exists|j: int|
        1 <= j < history.len() && lookup(params_of(history[0]), key) is Some && #[trigger] lookup(
            params_of(history[j]),
            key,
        ) is Some && lookup(params_of(history[j]), key) != lookup(params_of(history[0]), key)
}

/// Decides `varied(history, key)`.
pub fn is_varied(history: &[TrialRecord], key: &String) -> (r: bool)
    requires
        history.len() >= 1,
    ensures
        r == varied(history@, key@),
{
    let first = lookup_param(&history[0].params, key);
    let mut changed = false;
    let mut j: usize = 1;
    while j < history.len()
        invariant
            1 <= j <= history.len(),
            match first {
                Some(v) => lookup(params_of(history@[0]), key@) == Some(v@),
                None => lookup(params_of(history@[0]), key@) is None,
            },
            changed == exists|m: int|
                1 <= m < j && lookup(params_of(history@[0]), key@) is Some
                    && #[trigger] lookup(params_of(history@[m]), key@) is Some && lookup(
                    params_of(history@[m]),
                    key@,
                ) != lookup(params_of(history@[0]), key@),
        decreases history.len() - j,
    {
        let here = lookup_param(&history[j].params, key);
        assert(params_of(history@[j as int]) == pair_views(history@[j as int].params@));
        assert(params_of(history@[0]) == pair_views(history@[0].params@));
        let differs = match (first, here) {
            (Some(a), Some(b)) => *a != *b,
            _ => false,
        };
        if differs {
            changed = true;
        }
        j += 1;
    }
    changed
}

/// The sweep parameters never varied in `history`: with fewer than two runs,
/// all of them; otherwise those that no later run set to another value than
/// the first run did.
pub open spec fn untried(history: Seq<TrialRecord>, keys: Seq<Seq<char>>) -> Seq<Seq<char>> {
    if history.len() < 2 {
        keys
    } else {
        keys.filter(|k: Seq<char>| !varied(history, k))
    }
}

/// Append-only store of learnings, one JSON line each.
pub struct LearningStore {
    path: String,
}

impl LearningStore {
    /// A store kept in the file at `path` (its directory is created by the caller).
    pub fn new(path: String) -> (r: Self)
        ensures
            r.spec_path() == path@,
    {
        LearningStore { path }
    }

    /// The path of the store's file.
    pub closed spec fn spec_path(&self) -> Seq<char> {
        self.path@
    }

    /// The path of the store's file.
    pub fn path(&self) -> (r: &str)
        ensures
            r@ == self.spec_path(),
    {
        self.path.as_str()
    }

    /// The sweep parameters (named by `sweep_keys`) that `history` never varied.
    pub fn get_untried_dimensions(&self, history: &[TrialRecord], sweep_keys: &[String]) -> (r: Vec<
        String,
    >)
        ensures
            r@.map_values(|s: String| s@) == untried(history@, sweep_keys@.map_values(|s: String| s@)),
    {
        let ghost kv = sweep_keys@.map_values(|s: String| s@);
        let mut r: Vec<String> = Vec::new();
        if history.len() < 2 {
            let mut i: usize = 0;
            while i < sweep_keys.len()
                invariant
                    i <= sweep_keys.len(),
                    kv == sweep_keys@.map_values(|s: String| s@),
                    r@.map_values(|s: String| s@) == kv.take(i as int),
                decreases sweep_keys.len() - i,
            {
                let ghost before = r@.map_values(|s: String| s@);
                r.push(sweep_keys[i].clone());
                assert(r@.map_values(|s: String| s@) =~= before.push(kv[i as int]));
                assert(kv.take(i + 1) =~= kv.take(i as int).push(kv[i as int]));
                i += 1;
            }
            assert(kv.take(sweep_keys.len() as int) =~= kv);
            return r;
        }
        let ghost keep = |k: Seq<char>| !varied(history@, k);
        let mut i: usize = 0;
        assert(kv.take(0) =~= Seq::<Seq<char>>::empty());
        while i < sweep_keys.len()
            invariant
                i <= sweep_keys.len(),
                history.len() >= 2,
                kv == sweep_keys@.map_values(|s: String| s@),
                keep == (|k: Seq<char>| !varied(history@, k)),
                r@.map_values(|s: String| s@) == kv.take(i as int).filter(keep),
            decreases sweep_keys.len() - i,
        {
            let ghost before = r@.map_values(|s: String| s@);
            proof {
                assert(kv.take(i + 1) =~= kv.take(i as int).push(kv[i as int]));
                kv.take(i as int).lemma_filter_push(kv[i as int], keep);
            }
            let key = &sweep_keys[i];
            let changed = is_varied(history, key);
            assert(kv[i as int] == key@);
            if !changed {
                r.push(key.clone());
                assert(r@.map_values(|s: String| s@) =~= before.push(key@));
            }
            i += 1;
        }
        assert(kv.take(sweep_keys.len() as int) =~= kv);
        r
    }
}

} // verus!
