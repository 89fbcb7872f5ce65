//! What the scheduling and pruning logic reads of a finished experiment, and
//! whether a configuration was tried before.

use vstd::prelude::*;
use crate::text::pair_views;

verus! {

/// A finished experiment as the scheduling logic sees it.
///
/// Parameter values are held as their JSON text, rendered so that equal JSON
/// values give equal text; the primary metric is held as its order key (see
/// `sorting::order_key`); the Hyperband bracket and rung are the experiment's
/// metadata entries when they are unsigned integers.
#[derive(Debug)]
pub struct TrialRecord {
    pub params: Vec<(String, String)>,
    pub metric: Option<i64>,
    pub bracket: Option<u64>,
    pub rung: Option<u64>,
}

/// The parameters of a record, by view.
pub open spec fn params_of(r: TrialRecord) -> Seq<(Seq<char>, Seq<char>)> {
    pair_views(r.params@)
}

/// The value of parameter `key` (its first entry), if any.
pub open spec fn lookup(params: Seq<(Seq<char>, Seq<char>)>, key: Seq<char>) -> Option<Seq<char>>
    decreases params.len(),
{
    if params.len() == 0 {
        None
    } else if params[0].0 == key {
        Some(params[0].1)
    } else {
        lookup(params.drop_first(), key)
    }
}

/// Every entry of `config` has the same value in `params`.
pub open spec fn subsumed(
    config: Seq<(Seq<char>, Seq<char>)>,
    params: Seq<(Seq<char>, Seq<char>)>,
) -> bool {
    forall|i: int| 0 <= i < config.len() ==> lookup(params, #[trigger] config[i].0) == Some(
        config[i].1,
    )
}

/// Some record of `history` agrees with every entry of `config`.
pub open spec fn tried_before(config: Seq<(Seq<char>, Seq<char>)>, history: Seq<TrialRecord>) -> bool {
    exists|j: int| 0 <= j < history.len() && subsumed(config, params_of(#[trigger] history[j]))
}

/// Finds the value of parameter `key`.
pub fn lookup_param<'a>(params: &'a Vec<(String, String)>, key: &String) -> (r: Option<&'a String>)
    ensures
        match r {
            Some(v) => lookup(pair_views(params@), key@) == Some(v@),
            None => lookup(pair_views(params@), key@) is None,
        },
{
    let ghost pv = pair_views(params@);
    let mut i: usize = 0;
    assert(pv.skip(0) =~= pv);
    while i < params.len()
        invariant
            i <= params.len(),
            pv == pair_views(params@),
            lookup(pv, key@) == lookup(pv.skip(i as int), key@),
        decreases params.len() - i,
    {
        assert(pv.skip(i as int)[0] == (params@[i as int].0@, params@[i as int].1@));
        if params[i].0 == *key {
            return Some(&params[i].1);
        }
        assert(pv.skip(i as int).drop_first() =~= pv.skip(i + 1));
        i += 1;
    }
    assert(pv.skip(i as int) =~= Seq::<(Seq<char>, Seq<char>)>::empty());
    None
}

/// Decides `subsumed(config, params)`.
pub fn agrees_with(config: &[(String, String)], params: &Vec<(String, String)>) -> (r: bool)
    ensures
        r == subsumed(pair_views(config@), pair_views(params@)),
{
    let ghost cv = pair_views(config@);
    let mut i: usize = 0;
    while i < config.len()
        invariant
            i <= config.len(),
            cv == pair_views(config@),
            forall|k: int| 0 <= k < i ==> lookup(pair_views(params@), #[trigger] cv[k].0) == Some(
                cv[k].1,
            ),
        decreases config.len() - i,
    {
        assert(cv[i as int] == (config@[i as int].0@, config@[i as int].1@));
        match lookup_param(params, &config[i].0) {
            Some(v) => {
                if *v != config[i].1 {
                    assert(lookup(pair_views(params@), cv[i as int].0) != Some(cv[i as int].1));
                    return false;
                }
            },
            None => {
                assert(lookup(pair_views(params@), cv[i as int].0) != Some(cv[i as int].1));
                return false;
            },
        }
        i += 1;
    }
    true
}

/// Whether an exact configuration has already been tried: some record of
/// `history` has every parameter of `config` at the same value.
pub fn config_already_tried(config: &[(String, String)], history: &[TrialRecord]) -> (r: bool)
    ensures
        r == tried_before(pair_views(config@), history@),
{
    let mut j: usize = 0;
    while j < history.len()
        invariant
            j <= history.len(),
            forall|k: int| 0 <= k < j ==> !subsumed(
                pair_views(config@),
                params_of(#[trigger] history@[k]),
            ),
        decreases history.len() - j,
    {
        if agrees_with(config, &history[j].params) {
            return true;
        }
        j += 1;
    }
    false
}


/// Once a run of a configuration is recorded, the configuration counts as
/// tried, and recording more runs never makes a configuration untried.
pub proof fn lemma_recorded_configuration_is_tried(
    config: Seq<(Seq<char>, Seq<char>)>,
    history: Seq<TrialRecord>,
    record: TrialRecord,
)
    ensures
        subsumed(config, params_of(record)) ==> tried_before(config, history.push(record)),
        tried_before(config, history) ==> tried_before(config, history.push(record)),
{
    let h = history.push(record);
    if subsumed(config, params_of(record)) {
        assert(h[history.len() as int] == record);
    }
    if tried_before(config, history) {
        let j = choose|j: int| 0 <= j < history.len() && subsumed(config, params_of(#[trigger] history[j]));
        assert(h[j] == history[j]);
    }
}

} // verus!
