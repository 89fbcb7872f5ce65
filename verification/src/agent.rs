//! The decisions of the autonomous experiment loop.
//!
//! Each iteration orients on the history, proposes a configuration, runs it,
//! evaluates it with hooks, learns from it and then decides whether to go on,
//! to switch strategy or to stop. The running and measuring happen outside;
//! what is decided from their outcome is here, as a state and transitions.

use vstd::prelude::*;
use crate::text::{chars_of, has_infix, contains_chars};
use crate::store::{is_nan_key, key_greater};

verus! {

/// Why the loop stopped.
#[derive(Debug, PartialEq, Eq)]
pub enum StopReason {
    TargetsMet,
    BudgetExhausted,
    MaxIterationsReached,
    Plateau,
    UserInterrupted,
}

/// What to do after an iteration.
#[derive(Debug, PartialEq, Eq)]
pub enum Decision {
    Continue,
    SwitchStrategy(String),
    Stop(StopReason),
}

/// The phase of experiment planning.
#[derive(Debug, Clone, PartialEq, Eq)]
pub enum StrategyPhase {
    ParameterTuning,
    AlgorithmTuning,
    StructuralChanges,
    Custom(String),
}

/// What a hook asks for.
#[derive(Debug, Clone)]
pub enum HookAction {
    Proceed,
    Warn(String),
    Block(String),
}

/// The pre-execution hook that blocks a run the budget cannot pay for.
pub struct BudgetCheckHook;

impl BudgetCheckHook {
    /// The hook's name.
    pub fn name(&self) -> (r: &'static str)
        ensures
            r@ == "budget_check"@,
    {
        "budget_check"
    }
}

/// How many reverts in a row make the loop switch strategy.
pub const REVERT_LIMIT: usize = 3;

/// The loop's state across iterations.
pub struct AgentState {
    pub iteration: usize,
    pub strategy_phase: StrategyPhase,
    pub consecutive_reverts: usize,
    pub strategy_index: usize,
}

/// The decision after an iteration, in order of precedence: targets met,
/// budget exhausted, iteration limit reached, too many reverts in a row
/// (switch strategy), otherwise continue.
pub open spec fn decision_for(
    targets_met: bool,
    budget_ok: bool,
    iteration: nat,
    max_iterations: nat,
    consecutive_reverts: nat,
) -> Decision {
    if targets_met {
        Decision::Stop(StopReason::TargetsMet)
    } else if !budget_ok {
        Decision::Stop(StopReason::BudgetExhausted)
    } else if iteration >= max_iterations {
        Decision::Stop(StopReason::MaxIterationsReached)
    } else if consecutive_reverts >= REVERT_LIMIT {
        Decision::SwitchStrategy(arbitrary())
    } else {
        Decision::Continue
    }
}

/// The decision kinds agree (a strategy switch carries a label that is not compared).
pub open spec fn same_decision(a: Decision, b: Decision) -> bool {
    match (a, b) {
        (Decision::SwitchStrategy(_), Decision::SwitchStrategy(_)) => true,
        _ => a == b,
    }
}

/// `a` compares at least as great as `b` (never when either is NaN).
pub open spec fn key_at_least(a: i64, b: i64) -> bool {
    !is_nan_key(a) && !is_nan_key(b) && a >= b
}

/// The targets are met: there is a best result, there is at least one target,
/// and for every target the best result's value compares at least as great
/// as the target (through their order keys; NaN on either side fails).
pub open spec fn targets_met_spec(has_best: bool, pairs: Seq<(i64, i64)>) -> bool {
    has_best && pairs.len() > 0 && forall|i: int| 0 <= i < pairs.len() ==> key_at_least(
        #[trigger] pairs[i].0,
        pairs[i].1,
    )
}

fn key_ge(a: i64, b: i64) -> (r: bool)
    ensures
        r == key_at_least(a, b),
{
    !(a > 0x7FF0_0000_0000_0000 || a < -0x7FF0_0000_0000_0000) && !(b > 0x7FF0_0000_0000_0000 || b
        < -0x7FF0_0000_0000_0000) && a >= b
}

/// Decides `targets_met_spec`; `pairs` holds, for each target, the order key
/// of the best result's value (of 0 when it lacks the metric) and the order
/// key of the target.
pub fn targets_met(has_best: bool, pairs: &[(i64, i64)]) -> (r: bool)
    ensures
        r == targets_met_spec(has_best, pairs@),
{
    if !has_best || pairs.len() == 0 {
        return false;
    }
    let mut i: usize = 0;
    while i < pairs.len()
        invariant
            i <= pairs.len(),
            forall|j: int| 0 <= j < i ==> key_at_least(#[trigger] pairs@[j].0, pairs@[j].1),
        decreases pairs.len() - i,
    {
        if !key_ge(pairs[i].0, pairs[i].1) {
            return false;
        }
        i += 1;
    }
    true
}

/// A hook outcome that asks for the change to be reverted: a block, or a
/// warning that reports a regression.
pub open spec fn asks_revert(a: HookAction) -> bool {
    match a {
        HookAction::Proceed => false,
        HookAction::Warn(msg) => has_infix(msg@, "Regression"@),
        HookAction::Block(_) => true,
    }
}

/// Whether the post-evaluation hooks ask for a revert.
pub fn revert_requested(actions: &[HookAction]) -> (r: bool)
    ensures
        r == exists|i: int| 0 <= i < actions@.len() && asks_revert(#[trigger] actions@[i]),
{
    let word = chars_of("Regression");
    let mut i: usize = 0;
    while i < actions.len()
        invariant
            i <= actions.len(),
            word@ == "Regression"@,
            forall|j: int| 0 <= j < i ==> !asks_revert(#[trigger] actions@[j]),
        decreases actions.len() - i,
    {
        match &actions[i] {
            HookAction::Proceed => {},
            HookAction::Warn(msg) => {
                let m = chars_of(msg.as_str());
                if contains_chars(&m, &word) {
                    assert(asks_revert(actions@[i as int]));
                    return true;
                }
            },
            HookAction::Block(_) => {
                assert(asks_revert(actions@[i as int]));
                return true;
            },
        }
        i += 1;
    }
    false
}

/// What a pre-execution hook's outcome decides before the run: a block
/// stops the loop as out of budget; a warning or a go-ahead lets the run
/// proceed (`None`).
pub open spec fn pre_hook_verdict(a: HookAction) -> Option<Decision> {
    match a {
        HookAction::Block(_) => Some(Decision::Stop(StopReason::BudgetExhausted)),
        _ => None,
    }
}

/// The decision that a pre-execution hook's outcome forces, if any.
pub fn pre_hook_decision(action: &HookAction) -> (r: Option<Decision>)
    ensures
        r == pre_hook_verdict(*action),
{
    match action {
        HookAction::Block(_) => Some(Decision::Stop(StopReason::BudgetExhausted)),
        _ => None,
    }
}

/// A result improves on the best so far when its metric compares greater
/// than the best's (order keys, never when either is NaN; a missing metric
/// counts as the key of 0).
pub open spec fn improves(current: Option<i64>, best: Option<i64>) -> bool {
    key_greater(
        match current {
            Some(k) => k,
            None => 0,
        },
        match best {
            Some(k) => k,
            None => 0,
        },
    )
}

/// Decides `improves`.
pub fn is_improvement(current: Option<i64>, best: Option<i64>) -> (r: bool)
    ensures
        r == improves(current, best),
{
    let c: i64 = match current {
        Some(k) => k,
        None => 0,
    };
    let b: i64 = match best {
        Some(k) => k,
        None => 0,
    };
    !(c > 0x7FF0_0000_0000_0000 || c < -0x7FF0_0000_0000_0000) && !(b > 0x7FF0_0000_0000_0000 || b
        < -0x7FF0_0000_0000_0000) && c > b
}

/// What the loop does after a decision.
#[derive(Debug, PartialEq, Eq)]
pub enum LoopControl {
    /// Run another iteration with the same strategy.
    Next,
    /// Run another iteration with the strategy at this index.
    UseStrategy(usize),
    /// End the loop.
    Finish(StopReason),
}

impl AgentState {
    /// The state before the first iteration.
    pub fn new() -> (r: Self)
        ensures
            r.iteration == 0,
            r.strategy_phase == StrategyPhase::ParameterTuning,
            r.consecutive_reverts == 0,
            r.strategy_index == 0,
    {
        AgentState {
            iteration: 0,
            strategy_phase: StrategyPhase::ParameterTuning,
            consecutive_reverts: 0,
            strategy_index: 0,
        }
    }

    /// Starts an iteration.
    pub fn begin_iteration(&mut self)
        requires
            old(self).iteration < usize::MAX,
        ensures
            final(self).iteration == old(self).iteration + 1,
            final(self).consecutive_reverts == old(self).consecutive_reverts,
            final(self).strategy_index == old(self).strategy_index,
            final(self).strategy_phase == old(self).strategy_phase,
    {
        self.iteration = self.iteration + 1;
    }

    /// Records whether the iteration's change was reverted: a revert extends
    /// the run of reverts, a kept change ends it.
    pub fn record_outcome(&mut self, reverted: bool)
        requires
            old(self).consecutive_reverts < usize::MAX,
        ensures
            final(self).consecutive_reverts == (if reverted {
                old(self).consecutive_reverts + 1
            } else {
                0
            }),
            final(self).iteration == old(self).iteration,
            final(self).strategy_index == old(self).strategy_index,
            final(self).strategy_phase == old(self).strategy_phase,
    {
        if reverted {
            self.consecutive_reverts = self.consecutive_reverts + 1;
        } else {
            self.consecutive_reverts = 0;
        }
    }

    /// The decision after an iteration, given whether the targets are met and
    /// whether the budget pays for another run.
    pub fn decide(&self, targets_met: bool, budget_ok: bool, max_iterations: usize) -> (r:
        Decision)
        ensures
            same_decision(
                r,
                decision_for(
                    targets_met,
                    budget_ok,
                    self.iteration as nat,
                    max_iterations as nat,
                    self.consecutive_reverts as nat,
                ),
            ),
            r matches Decision::SwitchStrategy(label) ==> label@ == "next_phase"@,
    {
        if targets_met {
            Decision::Stop(StopReason::TargetsMet)
        } else if !budget_ok {
            Decision::Stop(StopReason::BudgetExhausted)
        } else if self.iteration >= max_iterations {
            Decision::Stop(StopReason::MaxIterationsReached)
        } else if self.consecutive_reverts >= REVERT_LIMIT {
            Decision::SwitchStrategy("next_phase".to_owned())
        } else {
            Decision::Continue
        }
    }

    /// Acts on a decision with `n_strategies` strategies to rotate through:
    /// a switch moves to the next strategy (cyclically) and clears the
    /// reverts, or ends the loop on a plateau when there is nothing to switch to.
    pub fn apply_decision(&mut self, decision: Decision, n_strategies: usize) -> (r: LoopControl)
        ensures
            match decision {
                Decision::Continue => r == LoopControl::Next && *final(self) == *old(self),
                Decision::Stop(reason) => r == LoopControl::Finish(reason) && *final(self)
                    == *old(self),
                Decision::SwitchStrategy(_) => if n_strategies <= 1 {
                    r == LoopControl::Finish(StopReason::Plateau) && *final(self) == *old(self)
                } else {
                    &&& final(self).strategy_index == (old(self).strategy_index + 1)
                        % n_strategies as int
                    &&& r == LoopControl::UseStrategy(final(self).strategy_index)
                    &&& final(self).consecutive_reverts == 0
                    &&& final(self).iteration == old(self).iteration
                    &&& final(self).strategy_phase == old(self).strategy_phase
                },
            },
    {
        match decision {
            Decision::Continue => LoopControl::Next,
            Decision::Stop(reason) => LoopControl::Finish(reason),
            Decision::SwitchStrategy(_) => {
                if n_strategies <= 1 {
                    LoopControl::Finish(StopReason::Plateau)
                } else {
                    let next = if self.strategy_index >= n_strategies - 1 {
                        proof {
                            assert(self.strategy_index >= n_strategies - 1);
                        }
                        (self.strategy_index - (n_strategies - 1)) % n_strategies
                    } else {
                        self.strategy_index + 1
                    };
                    proof {
                        let old_i = self.strategy_index as int;
                        let n = n_strategies as int;
                        if old_i >= n - 1 {
                            assert(((old_i - (n - 1)) % n) == (old_i + 1) % n) by (nonlinear_arith)
                                requires
                                    n >= 2,
                                    old_i >= n - 1,
                            ;
                        } else {
                            assert((old_i + 1) % n == old_i + 1) by (nonlinear_arith)
                                requires
                                    n >= 2,
                                    0 <= old_i < n - 1,
                            ;
                        }
                    }
                    self.strategy_index = next;
                    self.consecutive_reverts = 0;
                    LoopControl::UseStrategy(next)
                }
            },
        }
    }
}

} // verus!
