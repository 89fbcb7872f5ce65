//! Early stopping of unpromising trials: the median rule and asynchronous
//! successive halving (ASHA). Both compare the current trial's metric with the
//! metrics recorded so far, through their order keys (see `sorting`).

use vstd::prelude::*;
use crate::sorting::{recorded, recorded_keys, sort_keys, sorted_keys};
use crate::store::{is_nan_key, key_greater};

verus! {

/// Prunes trials that are below the median of completed trials.
pub struct MedianPruner {
    /// Minimum number of completed trials before pruning starts.
    pub min_trials: usize,
}

/// What the median rule decides for a trial.
#[derive(Debug, PartialEq, Eq)]
pub enum MedianVerdict {
    /// The trial is below the median: prune it.
    Prune,
    /// The trial is not below the median: keep it.
    Keep,
    /// The count is even and the trial lies between the two middle values
    /// (`lower <= current < upper`, order keys, none of them NaN): prune it exactly when its
    /// value is below the mean of the values with these keys, which only
    /// floating-point arithmetic can tell.
    AgainstMidpoint { lower: i64, upper: i64 },
}

/// The median rule over the recorded values: nothing is decided before
/// `min_trials` values are recorded (keep); with an odd count, prune below
/// the middle value; with an even count, prune below the lower middle value,
/// keep from the upper one on, and in between compare with their mean. A
/// comparison with NaN on either side is false, so a NaN trial or median is
/// kept.
pub open spec fn median_verdict(min_trials: nat, current: i64, values: Seq<i64>) -> MedianVerdict {
    let n = values.len();
    let s = sorted_keys(values);
    if n < min_trials || n == 0 {
        MedianVerdict::Keep
    } else if n % 2 == 1 {
        if key_greater(s[(n / 2) as int], current) {
            MedianVerdict::Prune
        } else {
            MedianVerdict::Keep
        }
    } else {
        let lower = s[(n / 2 - 1) as int];
        let upper = s[(n / 2) as int];
        if is_nan_key(current) || is_nan_key(lower) || is_nan_key(upper) {
            MedianVerdict::Keep
        } else if current < lower {
            MedianVerdict::Prune
        } else if current >= upper {
            MedianVerdict::Keep
        } else {
            MedianVerdict::AgainstMidpoint { lower, upper }
        }
    }
}

fn nan_key(k: i64) -> (r: bool)
    ensures
        r == is_nan_key(k),
{
    k > 0x7FF0_0000_0000_0000 || k < -0x7FF0_0000_0000_0000
}

/// `a` compares less than `b` (never when either is NaN).
fn key_less(a: i64, b: i64) -> (r: bool)
    ensures
        r == key_greater(b, a),
{
    !nan_key(a) && !nan_key(b) && a < b
}

impl MedianPruner {
    /// A median pruner that waits for `min_trials` completed trials.
    pub fn new(min_trials: usize) -> (r: Self)
        ensures
            r.min_trials == min_trials,
    {
        MedianPruner { min_trials }
    }

    /// Whether the trial with metric key `current` should be pruned, given the
    /// metric keys of earlier trials (`None` where the metric is missing):
    /// only once `min_trials` values are recorded, and then exactly when
    /// `current` is below their median (see `median_verdict`).
    pub fn should_prune(&self, current: i64, history: &[Option<i64>]) -> (r: MedianVerdict)
        requires
            self.min_trials > 0 || recorded(history@).len() > 0,
        ensures
            r == median_verdict(self.min_trials as nat, current, recorded(history@)),
    {
        let values = recorded_keys(history);
        if values.len() < self.min_trials {
            return MedianVerdict::Keep;
        }
        let sorted = sort_keys(&values);
        proof {
            values@.lemma_sort_by_ensures(crate::sorting::key_le());
            vstd::seq_lib::to_multiset_len(values@);
            vstd::seq_lib::to_multiset_len(sorted@);
        }
        let n = values.len();
        if n % 2 == 1 {
            if key_less(current, sorted[n / 2]) {
                MedianVerdict::Prune
            } else {
                MedianVerdict::Keep
            }
        } else {
            let lower = sorted[n / 2 - 1];
            let upper = sorted[n / 2];
            if nan_key(current) || nan_key(lower) || nan_key(upper) {
                MedianVerdict::Keep
            } else if current < lower {
                MedianVerdict::Prune
            } else if current >= upper {
                MedianVerdict::Keep
            } else {
                MedianVerdict::AgainstMidpoint { lower, upper }
            }
        }
    }
}

/// Asynchronous Successive Halving trial pruner: at every `reduction_factor`-th
/// iteration, trials outside the top `1 / reduction_factor` of the recorded
/// values are pruned.
pub struct AshaPruner {
    /// Reduction factor: the top `1 / reduction_factor` of trials survive.
    pub reduction_factor: usize,
    /// Iterations before pruning starts.
    pub min_iterations: usize,
}

/// `iteration` is a rung boundary: a multiple of the reduction factor (only
/// iteration 0 is a multiple of 0).
pub open spec fn at_rung_boundary(iteration: nat, reduction_factor: nat) -> bool {
    if reduction_factor == 0 {
        iteration == 0
    } else {
        iteration % reduction_factor == 0
    }
}

/// Position of the survival threshold among `n >= 1` sorted values: the
/// `1 - 1 / reduction_factor` quantile, rounded down, and at most the last position.
pub open spec fn threshold_index(n: nat, reduction_factor: nat) -> int {
    let q: int = if reduction_factor == 0 {
        0
    } else {
        (n * (reduction_factor - 1) as nat / reduction_factor) as int
    };
    if q <= n - 1 {
        q
    } else {
        n - 1
    }
}

/// The decision of the ASHA pruner.
pub open spec fn asha_prunes(
    reduction_factor: nat,
    min_iterations: nat,
    iteration: nat,
    current: i64,
    history: Seq<Option<i64>>,
) -> bool {
    let values = recorded(history);
    &&& iteration >= min_iterations
    &&& at_rung_boundary(iteration, reduction_factor)
    &&& values.len() > 0
    &&& key_greater(sorted_keys(values)[threshold_index(values.len(), reduction_factor)], current)
}

impl AshaPruner {
    /// An ASHA pruner.
    pub fn new(reduction_factor: usize, min_iterations: usize) -> (r: Self)
        ensures
            r.reduction_factor == reduction_factor,
            r.min_iterations == min_iterations,
    {
        AshaPruner { reduction_factor, min_iterations }
    }

    /// Whether the trial at `iteration` with metric key `current` should be
    /// pruned, given the metric keys of earlier trials: never before
    /// `min_iterations`, never off a rung boundary, never without recorded
    /// values, and otherwise exactly when `current` is below the survival
    /// threshold (false when either is NaN).
    pub fn should_prune(&self, iteration: usize, current: i64, history: &[Option<i64>]) -> (r:
        bool)
        ensures
            r == asha_prunes(
                self.reduction_factor as nat,
                self.min_iterations as nat,
                iteration as nat,
                current,
                history@,
            ),
    {
        if iteration < self.min_iterations {
            return false;
        }
        let boundary = if self.reduction_factor == 0 {
            iteration == 0
        } else {
            iteration % self.reduction_factor == 0
        };
        if !boundary {
            return false;
        }
        if history.len() == 0 {
            proof {
                assert(history@ =~= Seq::<Option<i64>>::empty());
                assert(recorded(history@) =~= Seq::<i64>::empty());
            }
            return false;
        }
        let values = recorded_keys(history);
        if values.len() == 0 {
            return false;
        }
        let sorted = sort_keys(&values);
        proof {
            values@.lemma_sort_by_ensures(crate::sorting::key_le());
            values@.to_multiset_ensures();
            sorted@.to_multiset_ensures();
        }
        let n = values.len();
        let q: usize = if self.reduction_factor == 0 {
            0
        } else {
            let a: u128 = n as u128;
            let b: u128 = (self.reduction_factor - 1) as u128;
            assert(a * b <= 0xffff_ffff_ffff_ffff_u128 * 0xffff_ffff_ffff_ffff_u128) by (nonlinear_arith)
                requires
                    a <= 0xffff_ffff_ffff_ffff_u128,
                    b <= 0xffff_ffff_ffff_ffff_u128,
            ;
            let num: u128 = a * b;
            let qq: u128 = num / (self.reduction_factor as u128);
            proof {
                assert(num <= (n as u128) * (self.reduction_factor as u128)) by (nonlinear_arith)
                    requires
                        num == (n as u128) * ((self.reduction_factor - 1) as u128),
                        self.reduction_factor >= 1,
                ;
                assert(qq <= n) by (nonlinear_arith)
                    requires
                        num <= (n as u128) * (self.reduction_factor as u128),
                        qq == num / (self.reduction_factor as u128),
                        self.reduction_factor >= 1,
                ;
            }
            qq as usize
        };
        let idx = if q <= n - 1 {
            q
        } else {
            n - 1
        };
        key_less(current, sorted[idx])
    }
}


/// Every value of the sorted keys is one of the recorded keys.
proof fn lemma_sorted_member(values: Seq<i64>, k: int)
    requires
        0 <= k < values.len(),
    ensures
        sorted_keys(values).len() == values.len(),
        values.contains(sorted_keys(values)[k]),
{
    let sorted = sorted_keys(values);
    values.lemma_sort_by_ensures(crate::sorting::key_le());
    vstd::seq_lib::to_multiset_len(values);
    vstd::seq_lib::to_multiset_len(sorted);
    assert(sorted.contains(sorted[k]));
    vstd::seq_lib::to_multiset_contains(sorted, sorted[k]);
    vstd::seq_lib::to_multiset_contains(values, sorted[k]);
}

/// Both pruners are monotone in the metric: when a trial is pruned, so is
/// any trial with a value no better, at the same point and with the same
/// history (for trial values that are not NaN).
pub proof fn lemma_pruning_monotone(
    min_trials: nat,
    reduction_factor: nat,
    min_iterations: nat,
    iteration: nat,
    better: i64,
    worse: i64,
    history: Seq<Option<i64>>,
)
    requires
        worse <= better,
        !is_nan_key(worse),
        !is_nan_key(better),
    ensures
        median_verdict(min_trials, better, recorded(history)) == MedianVerdict::Prune ==> median_verdict(
            min_trials,
            worse,
            recorded(history),
        ) == MedianVerdict::Prune,
        median_verdict(min_trials, worse, recorded(history)) == MedianVerdict::Keep ==> median_verdict(
            min_trials,
            better,
            recorded(history),
        ) == MedianVerdict::Keep,
        asha_prunes(reduction_factor, min_iterations, iteration, better, history) ==> asha_prunes(
            reduction_factor,
            min_iterations,
            iteration,
            worse,
            history,
        ),
{
}

/// A trial at least as good as every recorded trial is never pruned, by
/// either pruner.
pub proof fn lemma_best_trial_survives(
    min_trials: nat,
    reduction_factor: nat,
    min_iterations: nat,
    iteration: nat,
    current: i64,
    history: Seq<Option<i64>>,
)
    requires
        forall|i: int| 0 <= i < recorded(history).len() ==> #[trigger] recorded(history)[i] <= current,
    ensures
        median_verdict(min_trials, current, recorded(history)) == MedianVerdict::Keep,
        !asha_prunes(reduction_factor, min_iterations, iteration, current, history),
{
    let values = recorded(history);
    if values.len() > 0 {
        let n = values.len();
        lemma_sorted_member(values, (n / 2) as int);
        if n % 2 == 0 {
            lemma_sorted_member(values, (n / 2 - 1) as int);
        }
        let t = threshold_index(n, reduction_factor);
        if reduction_factor > 0 {
            assert(n * (reduction_factor - 1) as nat / reduction_factor >= 0) by (nonlinear_arith)
                requires
                    reduction_factor > 0,
            ;
        }
        assert(0 <= t < n);
        lemma_sorted_member(values, t);
    }
}


/// ASHA prunes all but the top `1 / reduction_factor` of a rung: at a rung
/// boundary past `min_iterations`, with `n >= 1` recorded values and a
/// reduction factor `rf >= 1`, a trial is pruned exactly when it is below
/// the value at position `floor(n * (rf - 1) / rf)` of the recorded values
/// in ascending order (for `rf = 3`, the value at `floor(2n / 3)`); that
/// position always lies within the values.
pub proof fn lemma_asha_prunes_below_quantile(
    reduction_factor: nat,
    min_iterations: nat,
    iteration: nat,
    current: i64,
    history: Seq<Option<i64>>,
)
    requires
        reduction_factor >= 1,
        iteration >= min_iterations,
        iteration % reduction_factor == 0,
        recorded(history).len() >= 1,
    ensures
        ({
            let values = recorded(history);
            let n = values.len();
            let pos = n * (reduction_factor - 1) / (reduction_factor as int);
            &&& 0 <= pos < n
            &&& asha_prunes(reduction_factor, min_iterations, iteration, current, history) == key_greater(
                sorted_keys(values)[pos],
                current,
            )
        }),
{
    let values = recorded(history);
    let n = values.len();
    let rf = reduction_factor;
    let pos = n * (rf - 1) / (rf as int);
    assert(0 <= pos < n) by (nonlinear_arith)
        requires
            rf >= 1,
            n >= 1,
            pos == n * (rf - 1) / (rf as int),
    {
        assert(n * (rf - 1) >= 0);
        assert(n * (rf - 1) < n * rf);
    }
    assert(n * (rf - 1) as nat / rf == pos) by (nonlinear_arith)
        requires
            rf >= 1,
            pos == n * (rf - 1) / (rf as int),
    ;
    assert(threshold_index(n, rf) == pos);
}

} // verus!
