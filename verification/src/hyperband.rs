//! Hyperband: a meta-scheduler for multi-fidelity optimisation.
//!
//! Hyperband runs several brackets of successive halving. Bracket `s`
//! starts `n_configs(s)` configurations at fidelity `initial_resource(s)`;
//! at each further rung the best `1 / eta` of the previous rung are promoted
//! and run at `eta` times the fidelity. Lower brackets explore more
//! configurations at lower fidelity; higher brackets run fewer at higher
//! fidelity. The schedule is rebuilt from the history on every call: each
//! finished trial carries its bracket and rung.

use vstd::prelude::*;
use vstd::relations::*;
use crate::sorting::lemma_insert_sorted;
use crate::trial::{TrialRecord, agrees_with, lookup, params_of, subsumed};
use crate::text::{chars_of, decimal, decimal_chars, extend_chars, extend_str, string_of};

verus! {

// ---------------------------------------------------------------------------
// Integer arithmetic of the schedule
// ---------------------------------------------------------------------------

/// `b` to the power `e`.
pub open spec fn power(b: nat, e: nat) -> nat
    decreases e,
{
    if e == 0 {
        1
    } else {
        b * power(b, (e - 1) as nat)
    }
}

pub proof fn lemma_div_smaller(m: nat, b: nat)
    requires
        b >= 2,
        m >= b,
    ensures
        1 <= m / b,
        m / b < m,
        m / b <= m - 1,
{
    assert(1 <= m / b && m / b < m) by (nonlinear_arith)
        requires
            b >= 2,
            m >= b,
    ;
}

/// `floor(log_b(m))` for `b >= 2` (0 below `b`).
pub open spec fn log_floor(b: nat, m: nat) -> nat
    decreases m,
{
    if b < 2 || m < b {
        0
    } else {
        proof {
            lemma_div_smaller(m, b);
        }
        1 + log_floor(b, m / b)
    }
}

/// Rounded-up quotient, for `b > 0`.
pub open spec fn ceil_div(a: nat, b: nat) -> nat {
    a / b + if a % b == 0 {
        0nat
    } else {
        1nat
    }
}

/// `floor(log_eta(max_resource))`: the largest bracket. A reduction factor
/// of 0 gives 0; a reduction factor of 1 gives 0 for a maximum resource of
/// at most 1 and `usize::MAX` above it.
pub open spec fn spec_s_max(max_resource: nat, eta: nat) -> nat {
    if eta == 0 {
        0
    } else if eta == 1 {
        if max_resource > 1 {
            usize::MAX as nat
        } else {
            0
        }
    } else {
        log_floor(eta, max_resource)
    }
}

/// The brackets can be scheduled: a reduction factor of 1 with a maximum
/// resource above 1 would need infinitely many brackets.
pub open spec fn schedulable(max_resource: nat, eta: nat) -> bool {
    !(eta == 1 && max_resource > 1)
}

/// The number of configurations that bracket `s` starts:
/// `ceil((s_max + 1) / (s + 1) * eta^s)`, at most `usize::MAX`.
pub open spec fn spec_n_configs(max_resource: nat, eta: nat, s: nat) -> nat {
    let n = ceil_div(((spec_s_max(max_resource, eta) + 1) * power(eta, s)) as nat, s + 1);
    if n <= usize::MAX {
        n
    } else {
        usize::MAX as nat
    }
}

/// The fidelity of the first rung of bracket `s`: `ceil(max_resource / eta^s)`
/// (`usize::MAX` when `eta^s` is 0 and the maximum resource is not).
pub open spec fn spec_initial_resource(max_resource: nat, eta: nat, s: nat) -> nat {
    let p = power(eta, s);
    if p == 0 {
        if max_resource > 0 {
            usize::MAX as nat
        } else {
            0
        }
    } else {
        ceil_div(max_resource, p)
    }
}

/// The fidelity of rung `rung` of bracket `s`.
pub open spec fn fidelity(max_resource: nat, eta: nat, s: nat, rung: nat) -> nat {
    spec_initial_resource(max_resource, eta, s) * power(eta, rung)
}

/// The number of trials that rung `rung` of bracket `s` should hold: the
/// bracket's configurations at rung 0, and `ceil(n / eta^rung)` above.
pub open spec fn quota(max_resource: nat, eta: nat, s: nat, rung: nat) -> nat {
    let n = spec_n_configs(max_resource, eta, s);
    if rung == 0 {
        n
    } else {
        ceil_div(n, power(eta, rung))
    }
}

/// Every fidelity of the schedule fits in a `usize`.
pub open spec fn fidelities_fit(max_resource: nat, eta: nat) -> bool {
    forall|s: nat|
        s <= spec_s_max(max_resource, eta) ==> #[trigger] fidelity(max_resource, eta, s, s)
            <= usize::MAX
}

pub proof fn lemma_power_positive(b: nat, e: nat)
    requires
        b >= 1,
    ensures
        power(b, e) >= 1,
    decreases e,
{
    if e > 0 {
        lemma_power_positive(b, (e - 1) as nat);
        assert(b * power(b, (e - 1) as nat) >= 1) by (nonlinear_arith)
            requires
                b >= 1,
                power(b, (e - 1) as nat) >= 1,
        ;
    }
}

pub proof fn lemma_power_monotone(b: nat, a: nat, c: nat)
    requires
        b >= 1,
        a <= c,
    ensures
        power(b, a) <= power(b, c),
    decreases c,
{
    if a < c {
        lemma_power_monotone(b, a, (c - 1) as nat);
        lemma_power_positive(b, (c - 1) as nat);
        assert(power(b, (c - 1) as nat) <= b * power(b, (c - 1) as nat)) by (nonlinear_arith)
            requires
                b >= 1,
                power(b, (c - 1) as nat) >= 1,
        ;
    }
}

pub proof fn lemma_power_at_least_base(b: nat, e: nat)
    requires
        b >= 1,
        e >= 1,
    ensures
        power(b, e) >= b,
{
    lemma_power_monotone(b, 1, e);
    assert(power(b, 0) == 1);
    assert(power(b, 1) == b * power(b, 0));
}

/// `eta^s_max` does not exceed the maximum resource.
pub proof fn lemma_power_log(b: nat, m: nat)
    requires
        b >= 2,
        m >= 1,
    ensures
        power(b, log_floor(b, m)) <= m,
    decreases m,
{
    if m >= b {
        lemma_div_smaller(m, b);
        lemma_power_log(b, m / b);
        let p = power(b, log_floor(b, m / b));
        assert(b * p <= m) by (nonlinear_arith)
            requires
                p <= m / b,
                b >= 2,
        ;
    }
}

/// The largest bracket is below the maximum resource.
pub proof fn lemma_log_below(b: nat, m: nat)
    requires
        b >= 2,
        m >= 1,
    ensures
        log_floor(b, m) < m,
    decreases m,
{
    if m >= b {
        lemma_div_smaller(m, b);
        lemma_log_below(b, m / b);
    }
}

/// Powers up to the largest bracket fit in a `usize`, and stay within the
/// maximum resource once the reduction factor is at least 2.
pub proof fn lemma_power_fits(max_resource: nat, eta: nat, s: nat)
    requires
        max_resource <= usize::MAX,
        schedulable(max_resource, eta),
        s <= spec_s_max(max_resource, eta),
    ensures
        power(eta, s) <= usize::MAX,
        eta >= 2 && max_resource >= 1 ==> power(eta, s) <= max_resource,
        spec_s_max(max_resource, eta) < usize::MAX,
        s >= 1 ==> eta >= 2,
{
    if eta >= 2 {
        if max_resource >= 1 {
            lemma_power_log(eta, max_resource);
            lemma_power_monotone(eta, s, log_floor(eta, max_resource));
            lemma_log_below(eta, max_resource);
        }
    }
}

/// Computes `b^e` when it fits.
pub fn power_of(b: usize, e: usize) -> (r: usize)
    requires
        power(b as nat, e as nat) <= usize::MAX,
    ensures
        r == power(b as nat, e as nat),
{
    let mut p: usize = 1;
    let mut k: usize = 0;
    while k < e
        invariant
            k <= e,
            p == power(b as nat, k as nat),
            power(b as nat, e as nat) <= usize::MAX,
        decreases e - k,
    {
        proof {
            assert(power(b as nat, (k + 1) as nat) == b * power(b as nat, k as nat));
            if b >= 1 {
                lemma_power_monotone(b as nat, (k + 1) as nat, e as nat);
            } else {
                assert(b * p == 0);
            }
        }
        p = b * p;
        k += 1;
    }
    p
}

// ---------------------------------------------------------------------------
// Reading the history
// ---------------------------------------------------------------------------

/// A bracket or rung tag read as the recorded number, a missing tag counting
/// as `u64::MAX`.
pub open spec fn has_tag(t: Option<u64>, x: nat) -> bool {
    (match t {
        Some(v) => v as nat,
        None => u64::MAX as nat,
    }) == x
}

/// The record ran at rung `rung` of bracket `s`.
pub open spec fn at_slot(r: TrialRecord, s: nat, rung: nat) -> bool {
    has_tag(r.bracket, s) && has_tag(r.rung, rung)
}

/// How many records ran at rung `rung` of bracket `s`.
pub open spec fn count_at(h: Seq<TrialRecord>, s: nat, rung: nat) -> nat
    decreases h.len(),
{
    if h.len() == 0 {
        0
    } else {
        count_at(h.drop_last(), s, rung) + if at_slot(h.last(), s, rung) {
            1nat
        } else {
            0nat
        }
    }
}

/// Positions of the records that ran at rung `rung` of bracket `s`.
pub open spec fn slot_positions(h: Seq<TrialRecord>, s: nat, rung: nat) -> Seq<usize>
    decreases h.len(),
{
    if h.len() == 0 {
        seq![]
    } else if at_slot(h.last(), s, rung) {
        slot_positions(h.drop_last(), s, rung).push((h.len() - 1) as usize)
    } else {
        slot_positions(h.drop_last(), s, rung)
    }
}

/// The metric key of record `i`, a missing metric counting as 0.
pub open spec fn metric_or_zero(h: Seq<TrialRecord>, i: usize) -> i64 {
    match h[i as int].metric {
        Some(k) => k,
        None => 0,
    }
}

/// Best metric first; among equal metrics, earlier records first.
pub open spec fn rank_le(h: Seq<TrialRecord>) -> spec_fn(usize, usize) -> bool {
    |i: usize, j: usize|
        metric_or_zero(h, i) > metric_or_zero(h, j) || (metric_or_zero(h, i) == metric_or_zero(
            h,
            j,
        ) && i <= j)
}

pub proof fn lemma_rank_le_total(h: Seq<TrialRecord>)
    ensures
        total_ordering(rank_le(h)),
{
}

/// The records of a rung, best first: the candidates for promotion.
pub open spec fn promotion_order(h: Seq<TrialRecord>, s: nat, rung: nat) -> Seq<usize> {
    slot_positions(h, s, rung).sort_by(rank_le(h))
}

/// The first `n` elements of `v` (all of them when it has fewer).
pub open spec fn first_n(v: Seq<usize>, n: nat) -> Seq<usize> {
    if v.len() <= n {
        v
    } else {
        v.take(n as int)
    }
}

/// A configuration with these parameters already ran at rung `rung` of bracket `s`.
pub open spec fn already_run(
    h: Seq<TrialRecord>,
    s: nat,
    rung: nat,
    params: Seq<(Seq<char>, Seq<char>)>,
) -> bool {
    exists|j: int|
        0 <= j < h.len() && h[j].bracket == Some(s as u64) && h[j].rung == Some(rung as u64)
            && subsumed(params, params_of(#[trigger] h[j]))
}

/// The first candidate whose configuration has not run at the rung yet.
pub open spec fn first_unrun(h: Seq<TrialRecord>, order: Seq<usize>, s: nat, rung: nat) -> Option<
    usize,
>
    decreases order.len(),
{
    if order.len() == 0 {
        None
    } else if !already_run(h, s, rung, params_of(h[order[0] as int])) {
        Some(order[0])
    } else {
        first_unrun(h, order.drop_first(), s, rung)
    }
}

// ---------------------------------------------------------------------------
// The schedule
// ---------------------------------------------------------------------------

/// What Hyperband runs next.
#[derive(Debug, PartialEq, Eq)]
pub enum HyperbandStep {
    /// A new random configuration, at the first rung of a bracket.
    NewConfig { bracket: usize, rung: usize, fidelity: usize },
    /// The configuration of history record `source`, promoted to the next rung.
    Promote { bracket: usize, rung: usize, fidelity: usize, source: usize },
    /// Every bracket is complete.
    Complete,
}

/// The rationale line of a step that suggests a configuration.
pub open spec fn step_rationale(step: HyperbandStep) -> Option<Seq<char>> {
    match step {
        HyperbandStep::NewConfig { bracket, rung, fidelity } => Some(
            "Hyperband bracket "@ + decimal(bracket as nat) + ", rung "@ + decimal(rung as nat)
                + ": new config at fidelity "@ + decimal(fidelity as nat),
        ),
        HyperbandStep::Promote { bracket, rung, fidelity, .. } => Some(
            "Hyperband bracket "@ + decimal(bracket as nat) + ", rung "@ + decimal(rung as nat)
                + ": promoted config at fidelity "@ + decimal(fidelity as nat),
        ),
        HyperbandStep::Complete => None,
    }
}

/// The metadata a suggested configuration carries: its bracket, rung and
/// fidelity, by name.
pub open spec fn step_metadata(step: HyperbandStep) -> Seq<(Seq<char>, nat)> {
    match step {
        HyperbandStep::NewConfig { bracket, rung, fidelity } => seq![
            ("hyperband_bracket"@, bracket as nat),
            ("hyperband_rung"@, rung as nat),
            ("fidelity"@, fidelity as nat),
        ],
        HyperbandStep::Promote { bracket, rung, fidelity, .. } => seq![
            ("hyperband_bracket"@, bracket as nat),
            ("hyperband_rung"@, rung as nat),
            ("fidelity"@, fidelity as nat),
        ],
        HyperbandStep::Complete => Seq::empty(),
    }
}

fn rationale_line(bracket: usize, rung: usize, fidelity: usize, what: &str) -> (r: String)
    ensures
        r@ == "Hyperband bracket "@ + decimal(bracket as nat) + ", rung "@ + decimal(rung as nat) + ": "@
            + what@ + " at fidelity "@ + decimal(fidelity as nat),
{
    let mut out: Vec<char> = Vec::new();
    extend_str(&mut out, "Hyperband bracket ");
    extend_chars(&mut out, &decimal_chars(bracket as u64));
    extend_str(&mut out, ", rung ");
    extend_chars(&mut out, &decimal_chars(rung as u64));
    extend_str(&mut out, ": ");
    extend_str(&mut out, what);
    extend_str(&mut out, " at fidelity ");
    extend_chars(&mut out, &decimal_chars(fidelity as u64));
    string_of(&out)
}

impl HyperbandStep {
    /// The rationale of a step that suggests a configuration (`None` once
    /// every bracket is complete).
    pub fn rationale(&self) -> (r: Option<String>)
        ensures
            r matches Some(t) ==> step_rationale(*self) == Some(t@),
            r is None <==> step_rationale(*self) is None,
    {
        match self {
            HyperbandStep::NewConfig { bracket, rung, fidelity } => {
                let t = rationale_line(*bracket, *rung, *fidelity, "new config");
                proof {
                    reveal_strlit("new config");
                    reveal_strlit(": ");
                    reveal_strlit(" at fidelity ");
                    reveal_strlit(": new config at fidelity ");
                    assert(": "@ + "new config"@ + " at fidelity "@ =~= ": new config at fidelity "@);
                }
                Some(t)
            },
            HyperbandStep::Promote { bracket, rung, fidelity, .. } => {
                let t = rationale_line(*bracket, *rung, *fidelity, "promoted config");
                proof {
                    reveal_strlit("promoted config");
                    reveal_strlit(": ");
                    reveal_strlit(" at fidelity ");
                    reveal_strlit(": promoted config at fidelity ");
                    assert(": "@ + "promoted config"@ + " at fidelity "@ =~= ": promoted config at fidelity "@);
                }
                Some(t)
            },
            HyperbandStep::Complete => None,
        }
    }

    /// The metadata of a step that suggests a configuration: bracket, rung
    /// and fidelity, by name (none once every bracket is complete).
    pub fn metadata(&self) -> (r: Vec<(String, usize)>)
        ensures
            r@.map_values(|p: (String, usize)| (p.0@, p.1 as nat)) == step_metadata(*self),
    {
        let (bracket, rung, fidelity) = match self {
            HyperbandStep::NewConfig { bracket, rung, fidelity } => (*bracket, *rung, *fidelity),
            HyperbandStep::Promote { bracket, rung, fidelity, .. } => (*bracket, *rung, *fidelity),
            HyperbandStep::Complete => {
                let r: Vec<(String, usize)> = Vec::new();
                assert(r@.map_values(|p: (String, usize)| (p.0@, p.1 as nat)) =~= step_metadata(*self));
                return r;
            },
        };
        let mut r: Vec<(String, usize)> = Vec::new();
        r.push((string_of(&chars_of("hyperband_bracket")), bracket));
        r.push((string_of(&chars_of("hyperband_rung")), rung));
        r.push((string_of(&chars_of("fidelity")), fidelity));
        assert(r@.map_values(|p: (String, usize)| (p.0@, p.1 as nat)) =~= step_metadata(*self));
        r
    }
}

/// Hyperband meta-scheduler for multi-fidelity optimisation.
pub struct Hyperband {
    /// Maximum resource budget per trial (for example, epochs).
    pub max_resource: usize,
    /// Reduction factor: the best `1 / eta` of a rung are promoted.
    pub eta: usize,
}

/// The decision at rung `rung` of bracket `s`, if that rung still needs a trial.
pub open spec fn step_at(hb: Hyperband, h: Seq<TrialRecord>, s: nat, rung: nat) -> Option<
    HyperbandStep,
> {
    let m = hb.max_resource as nat;
    let e = hb.eta as nat;
    let q = quota(m, e, s, rung);
    if count_at(h, s, rung) >= q {
        None
    } else if rung == 0 {
        Some(
            HyperbandStep::NewConfig {
                bracket: s as usize,
                rung: 0,
                fidelity: fidelity(m, e, s, 0) as usize,
            },
        )
    } else {
        match first_unrun(h, first_n(promotion_order(h, s, (rung - 1) as nat), q), s, rung) {
            Some(i) => Some(
                HyperbandStep::Promote {
                    bracket: s as usize,
                    rung: rung as usize,
                    fidelity: fidelity(m, e, s, rung) as usize,
                    source: i,
                },
            ),
            None => None,
        }
    }
}

/// Scanning the brackets from bracket `s` at rung `rung` on: rungs upwards
/// within a bracket, brackets downwards to 0.
pub open spec fn plan_from(hb: Hyperband, h: Seq<TrialRecord>, s: nat, rung: nat) -> HyperbandStep
    decreases s, s + 1 - rung,
{
    if rung > s {
        if s == 0 {
            HyperbandStep::Complete
        } else {
            plan_from(hb, h, (s - 1) as nat, 0)
        }
    } else {
        match step_at(hb, h, s, rung) {
            Some(st) => st,
            None => plan_from(hb, h, s, rung + 1),
        }
    }
}

/// Hyperband's next step: the first rung that still needs a trial, from the
/// most aggressive bracket down; a new configuration at a first rung, else
/// the best configuration of the rung below not yet run at this rung.
pub open spec fn plan_spec(hb: Hyperband, h: Seq<TrialRecord>) -> HyperbandStep {
    plan_from(hb, h, spec_s_max(hb.max_resource as nat, hb.eta as nat), 0)
}

impl Hyperband {
    /// A Hyperband scheduler.
    pub fn new(max_resource: usize, eta: usize) -> (r: Self)
        ensures
            r.max_resource == max_resource,
            r.eta == eta,
    {
        Hyperband { max_resource, eta }
    }

    /// The strategy's name.
    pub fn name(&self) -> (r: &'static str)
        ensures
            r@ == "hyperband"@,
    {
        "hyperband"
    }

    /// The largest bracket, `floor(log_eta(max_resource))`.
    pub fn s_max(&self) -> (r: usize)
        ensures
            r == spec_s_max(self.max_resource as nat, self.eta as nat),
    {
        if self.eta == 0 {
            0
        } else if self.eta == 1 {
            if self.max_resource > 1 {
                usize::MAX
            } else {
                0
            }
        } else {
            let mut m = self.max_resource;
            let mut s: usize = 0;
            while m >= self.eta
                invariant
                    self.eta >= 2,
                    s + log_floor(self.eta as nat, m as nat) == log_floor(
                        self.eta as nat,
                        self.max_resource as nat,
                    ),
                    s <= self.max_resource,
                    m <= self.max_resource,
                    s + m <= self.max_resource || s == 0,
                decreases m,
            {
                proof {
                    lemma_div_smaller(m as nat, self.eta as nat);
                }
                m = m / self.eta;
                s = s + 1;
            }
            s
        }
    }

    /// The number of configurations that bracket `s` starts.
    pub fn n_configs(&self, s: usize) -> (r: usize)
        requires
            schedulable(self.max_resource as nat, self.eta as nat),
            s <= spec_s_max(self.max_resource as nat, self.eta as nat),
        ensures
            r == spec_n_configs(self.max_resource as nat, self.eta as nat, s as nat),
    {
        proof {
            lemma_power_fits(self.max_resource as nat, self.eta as nat, s as nat);
        }
        let smax = self.s_max();
        let p = power_of(self.eta, s);
        let a: u128 = (smax as u128) + 1;
        let b: u128 = p as u128;
        assert(a * b <= 0x1_0000_0000_0000_0000_u128 * 0xffff_ffff_ffff_ffff_u128) by (nonlinear_arith)
            requires
                a <= 0x1_0000_0000_0000_0000_u128,
                b <= 0xffff_ffff_ffff_ffff_u128,
        ;
        let num: u128 = a * b;
        let d: u128 = (s as u128) + 1;
        let q: u128 = num / d + if num % d == 0 {
            0
        } else {
            1
        };
        if q <= (usize::MAX as u128) {
            q as usize
        } else {
            usize::MAX
        }
    }

    /// The fidelity of the first rung of bracket `s`.
    pub fn initial_resource(&self, s: usize) -> (r: usize)
        ensures
            r == spec_initial_resource(self.max_resource as nat, self.eta as nat, s as nat),
    {
        let m = self.max_resource;
        let e = self.eta;
        if e == 0 {
            if s == 0 {
                return m;
            }
            assert(power(0, s as nat) == 0 * power(0, (s - 1) as nat));
            return if m > 0 {
                usize::MAX
            } else {
                0
            };
        }
        if e == 1 {
            proof {
                lemma_power_one(s as nat);
            }
            return m;
        }
        proof {
            lemma_power_positive(e as nat, s as nat);
        }
        if m == 0 {
            return 0;
        }
        let mut p: usize = 1;
        let mut k: usize = 0;
        while k < s
            invariant
                e >= 2,
                m >= 1,
                k <= s,
                m == self.max_resource,
                e == self.eta,
                p == power(e as nat, k as nat),
                p <= m,
                power(e as nat, s as nat) >= 1,
            decreases s - k,
        {
            if p > m / e {
                proof {
                    assert(e * p > m) by (nonlinear_arith)
                        requires
                            p > m / e,
                            e >= 2,
                    ;
                    assert(power(e as nat, (k + 1) as nat) == e * p);
                    lemma_power_monotone(e as nat, (k + 1) as nat, s as nat);
                    let big = power(e as nat, s as nat);
                    let mm = m as nat;
                    assert(mm / big == 0 && mm % big == mm) by (nonlinear_arith)
                        requires
                            big > mm,
                            mm >= 1,
                    ;
                    assert(big > mm);
                    assert(ceil_div(mm, big) == 1);
                }
                return 1;
            }
            proof {
                assert(e * p <= m) by (nonlinear_arith)
                    requires
                        p <= m / e,
                        e >= 2,
                ;
            }
            p = e * p;
            k += 1;
        }
        proof {
            assert(m % p != 0 ==> m / p < m) by (nonlinear_arith)
                requires
                    p >= 1,
            ;
        }
        m / p + if m % p == 0 {
            0
        } else {
            1
        }
    }

    /// How many records ran at rung `rung` of bracket `bracket`.
    pub fn count_at_rung(&self, history: &[TrialRecord], bracket: usize, rung: usize) -> (r: usize)
        ensures
            r == count_at(history@, bracket as nat, rung as nat),
    {
        let mut n: usize = 0;
        let mut i: usize = 0;
        assert(history@.take(0) =~= Seq::<TrialRecord>::empty());
        while i < history.len()
            invariant
                i <= history.len(),
                n <= i,
                n == count_at(history@.take(i as int), bracket as nat, rung as nat),
            decreases history.len() - i,
        {
            assert(history@.take(i + 1).drop_last() =~= history@.take(i as int));
            let b = match history[i].bracket {
                Some(v) => v,
                None => u64::MAX,
            };
            let g = match history[i].rung {
                Some(v) => v,
                None => u64::MAX,
            };
            if b == bracket as u64 && g == rung as u64 {
                n += 1;
            }
            i += 1;
        }
        assert(history@.take(history.len() as int) =~= history@);
        n
    }

    fn rank_le_exec(history: &[TrialRecord], i: usize, j: usize) -> (r: bool)
        requires
            i < history.len(),
            j < history.len(),
        ensures
            r == rank_le(history@)(i, j),
    {
        let ki: i64 = match history[i].metric {
            Some(k) => k,
            None => 0,
        };
        let kj: i64 = match history[j].metric {
            Some(k) => k,
            None => 0,
        };
        ki > kj || (ki == kj && i <= j)
    }

    /// The records of rung `rung` of bracket `bracket`, best metric first.
    pub fn promotion_order(&self, history: &[TrialRecord], bracket: usize, rung: usize) -> (r:
        Vec<usize>)
        ensures
            r@ == promotion_order(history@, bracket as nat, rung as nat),
    {
        let ghost h = history@;
        let mut pos: Vec<usize> = Vec::new();
        let mut i: usize = 0;
        assert(history@.take(0) =~= Seq::<TrialRecord>::empty());
        while i < history.len()
            invariant
                i <= history.len(),
                h == history@,
                pos@ == slot_positions(h.take(i as int), bracket as nat, rung as nat),
                forall|k: int| 0 <= k < pos.len() ==> #[trigger] pos@[k] < i,
            decreases history.len() - i,
        {
            assert(h.take(i + 1).drop_last() =~= h.take(i as int));
            assert(h.take(i + 1).last() == h[i as int]);
            let b = match history[i].bracket {
                Some(v) => v,
                None => u64::MAX,
            };
            let g = match history[i].rung {
                Some(v) => v,
                None => u64::MAX,
            };
            if b == bracket as u64 && g == rung as u64 {
                pos.push(i);
            }
            i += 1;
        }
        assert(h.take(h.len() as int) =~= h);
        let ghost le = rank_le(h);
        proof {
            lemma_rank_le_total(h);
        }
        let mut out: Vec<usize> = Vec::new();
        let mut k: usize = 0;
        assert(out@ =~= pos@.take(0));
        while k < pos.len()
            invariant
                k <= pos.len(),
                h == history@,
                le == rank_le(h),
                total_ordering(le),
                forall|t: int| 0 <= t < pos.len() ==> #[trigger] pos@[t] < history.len(),
                forall|t: int| 0 <= t < out.len() ==> #[trigger] out@[t] < history.len(),
                sorted_by(out@, le),
                out@.to_multiset() == pos@.take(k as int).to_multiset(),
            decreases pos.len() - k,
        {
            let x = pos[k];
            let mut p: usize = 0;
            while p < out.len() && Self::rank_le_exec(history, out[p], x)
                invariant
                    p <= out.len(),
                    x < history.len(),
                    h == history@,
                    le == rank_le(h),
                    forall|t: int| 0 <= t < out.len() ==> #[trigger] out@[t] < history.len(),
                    forall|j: int| 0 <= j < p ==> #[trigger] le(out@[j], x),
                decreases out.len() - p,
            {
                p += 1;
            }
            proof {
                lemma_insert_sorted(out@, x, p as int, le);
                vstd::seq_lib::to_multiset_insert(out@, p as int, x);
                assert(pos@.take(k + 1) == pos@.take(k as int).push(x));
                vstd::seq_lib::to_multiset_build(pos@.take(k as int), x);
            }
            out.insert(p, x);
            k += 1;
        }
        proof {
            assert(pos@.take(pos.len() as int) =~= pos@);
            pos@.lemma_sort_by_ensures(le);
            vstd::seq_lib::lemma_sorted_unique(out@, pos@.sort_by(le), le);
        }
        out
    }

    /// Whether a configuration with these parameters already ran at rung
    /// `rung` of bracket `bracket`.
    pub fn already_run(
        &self,
        history: &[TrialRecord],
        bracket: usize,
        rung: usize,
        params: &[(String, String)],
    ) -> (r: bool)
        ensures
            r == already_run(
                history@,
                bracket as nat,
                rung as nat,
                crate::text::pair_views(params@),
            ),
    {
        let mut j: usize = 0;
        while j < history.len()
            invariant
                j <= history.len(),
                forall|k: int|
                    0 <= k < j ==> !(history@[k].bracket == Some(bracket as u64) && history@[k].rung
                        == Some(rung as u64) && subsumed(
                        crate::text::pair_views(params@),
                        params_of(#[trigger] history@[k]),
                    )),
            decreases history.len() - j,
        {
            let r = &history[j];
            if r.bracket == Some(bracket as u64) && r.rung == Some(rung as u64) && agrees_with(
                params,
                &r.params,
            ) {
                return true;
            }
            j += 1;
        }
        false
    }

    fn step(&self, history: &[TrialRecord], s: usize, rung: usize) -> (r: Option<HyperbandStep>)
        requires
            schedulable(self.max_resource as nat, self.eta as nat),
            fidelities_fit(self.max_resource as nat, self.eta as nat),
            rung <= s,
            s <= spec_s_max(self.max_resource as nat, self.eta as nat),
        ensures
            r == step_at(*self, history@, s as nat, rung as nat),
    {
        let ghost m = self.max_resource as nat;
        let ghost e = self.eta as nat;
        proof {
            lemma_power_fits(m, e, s as nat);
            lemma_power_fits(m, e, rung as nat);
        }
        let n = self.n_configs(s);
        let q: usize = if rung == 0 {
            n
        } else {
            let p = power_of(self.eta, rung);
            proof {
                lemma_power_at_least_base(e, rung as nat);
                assert(n / p + 1 <= n || n == 0) by (nonlinear_arith)
                    requires
                        p >= 2,
                ;
            }
            n / p + if n % p == 0 {
                0
            } else {
                1
            }
        };
        assert(q == quota(m, e, s as nat, rung as nat));
        let actual = self.count_at_rung(history, s, rung);
        if actual >= q {
            return None;
        }
        let r0 = self.initial_resource(s);
        let p = power_of(self.eta, rung);
        proof {
            assert(fidelity(m, e, s as nat, s as nat) <= usize::MAX);
            if e >= 1 {
                lemma_power_monotone(e, rung as nat, s as nat);
                assert(r0 * p <= r0 * power(e, s as nat)) by (nonlinear_arith)
                    requires
                        p <= power(e, s as nat),
                ;
            } else {
                assert(s == 0);
            }
        }
        let fid = r0 * p;
        proof {
            let ir = spec_initial_resource(m, e, s as nat);
            let pw = power(e, rung as nat);
            assert(fid == fidelity(m, e, s as nat, rung as nat)) by (nonlinear_arith)
                requires
                    fid == r0 * p,
                    r0 == ir,
                    p == pw,
                    fidelity(m, e, s as nat, rung as nat) == ir * pw,
            ;
        }
        if rung == 0 {
            return Some(HyperbandStep::NewConfig { bracket: s, rung: 0, fidelity: fid });
        }
        let order = self.promotion_order(history, s, rung - 1);
        let ghost cand = first_n(order@, q as nat);
        let mut k: usize = 0;
        assert(cand.skip(0) =~= cand);
        while k < order.len() && k < q
            invariant
                k <= order.len(),
                k <= cand.len(),
                cand == first_n(order@, q as nat),
                order@ == promotion_order(history@, s as nat, (rung - 1) as nat),
                rung >= 1,
                m == self.max_resource as nat,
                e == self.eta as nat,
                fid == fidelity(m, e, s as nat, rung as nat),
                q == quota(m, e, s as nat, rung as nat),
                count_at(history@, s as nat, rung as nat) < q,
                first_unrun(history@, cand, s as nat, rung as nat) == first_unrun(
                    history@,
                    cand.skip(k as int),
                    s as nat,
                    rung as nat,
                ),
            decreases order.len() - k,
        {
            let i = order[k];
            assert(cand.skip(k as int)[0] == i);
            proof {
                promotion_order_in_range(history@, s as nat, (rung - 1) as nat, k as int);
            }
            if !self.already_run(history, s, rung, history[i].params.as_slice()) {
                assert(first_unrun(history@, cand.skip(k as int), s as nat, rung as nat) == Some(i));
                return Some(
                    HyperbandStep::Promote { bracket: s, rung, fidelity: fid, source: i },
                );
            }
            assert(cand.skip(k as int).drop_first() =~= cand.skip(k + 1));
            k += 1;
        }
        assert(cand.skip(k as int) =~= Seq::<usize>::empty());
        None
    }

    /// Whether this schedule can be planned: brackets are finite in number
    /// and every fidelity fits in a `usize`.
    pub fn can_schedule(&self) -> (r: bool)
        ensures
            r == (schedulable(self.max_resource as nat, self.eta as nat) && fidelities_fit(
                self.max_resource as nat,
                self.eta as nat,
            )),
    {
        if self.eta == 1 && self.max_resource > 1 {
            return false;
        }
        let ghost m = self.max_resource as nat;
        let ghost e = self.eta as nat;
        let smax = self.s_max();
        proof {
            lemma_power_fits(m, e, 0);
        }
        let mut s: usize = 0;
        while s <= smax
            invariant
                schedulable(m, e),
                m == self.max_resource,
                e == self.eta,
                smax == spec_s_max(m, e),
                smax < usize::MAX,
                s <= smax + 1,
                forall|t: nat| t < s ==> #[trigger] fidelity(m, e, t, t) <= usize::MAX,
            decreases smax + 1 - s,
        {
            proof {
                lemma_power_fits(m, e, s as nat);
            }
            let ir = self.initial_resource(s);
            let pw = power_of(self.eta, s);
            assert((ir as u128) * (pw as u128) <= 0xffff_ffff_ffff_ffff_u128 * 0xffff_ffff_ffff_ffff_u128)
                by (nonlinear_arith)
                requires
                    ir <= 0xffff_ffff_ffff_ffff_u128,
                    pw <= 0xffff_ffff_ffff_ffff_u128,
            ;
            let prod: u128 = (ir as u128) * (pw as u128);
            assert(prod == fidelity(m, e, s as nat, s as nat)) by (nonlinear_arith)
                requires
                    prod == ir * pw,
                    ir == spec_initial_resource(m, e, s as nat),
                    pw == power(e, s as nat),
            ;
            if prod > usize::MAX as u128 {
                assert(!fidelities_fit(m, e));
                return false;
            }
            s += 1;
        }
        true
    }

    /// What to run next, given the history of finished trials.
    pub fn plan(&self, history: &[TrialRecord]) -> (r: HyperbandStep)
        requires
            schedulable(self.max_resource as nat, self.eta as nat),
            fidelities_fit(self.max_resource as nat, self.eta as nat),
        ensures
            r == plan_spec(*self, history@),
    {
        let smax = self.s_max();
        proof {
            lemma_power_fits(self.max_resource as nat, self.eta as nat, 0);
        }
        let mut s = smax;
        loop
            invariant
                s <= smax,
                smax == spec_s_max(self.max_resource as nat, self.eta as nat),
                smax < usize::MAX,
                schedulable(self.max_resource as nat, self.eta as nat),
                fidelities_fit(self.max_resource as nat, self.eta as nat),
                plan_spec(*self, history@) == plan_from(*self, history@, s as nat, 0),
            decreases s,
        {
            let mut rung: usize = 0;
            while rung <= s
                invariant
                    rung <= s + 1,
                    s <= smax,
                    smax == spec_s_max(self.max_resource as nat, self.eta as nat),
                    smax < usize::MAX,
                    schedulable(self.max_resource as nat, self.eta as nat),
                    fidelities_fit(self.max_resource as nat, self.eta as nat),
                    plan_spec(*self, history@) == plan_from(*self, history@, s as nat, rung as nat),
                decreases s + 1 - rung,
            {
                match self.step(history, s, rung) {
                    Some(st) => {
                        return st;
                    },
                    None => {},
                }
                rung += 1;
            }
            if s == 0 {
                return HyperbandStep::Complete;
            }
            s -= 1;
        }
    }
}

pub proof fn lemma_power_one(e: nat)
    ensures
        power(1, e) == 1,
    decreases e,
{
    if e > 0 {
        lemma_power_one((e - 1) as nat);
    }
}

/// Every position in `slot_positions` is a position of the history.
pub proof fn lemma_slot_positions_in_range(h: Seq<TrialRecord>, s: nat, rung: nat)
    ensures
        forall|k: int|
            0 <= k < slot_positions(h, s, rung).len() ==> #[trigger] slot_positions(
                h,
                s,
                rung,
            )[k] < h.len(),
    decreases h.len(),
{
    if h.len() > 0 {
        lemma_slot_positions_in_range(h.drop_last(), s, rung);
        let prev = slot_positions(h.drop_last(), s, rung);
        let sp = slot_positions(h, s, rung);
        assert forall|k: int| 0 <= k < sp.len() implies #[trigger] sp[k] < h.len() by {
            if k < prev.len() {
                assert(prev[k] < h.len() - 1);
            }
        }
    }
}

proof fn promotion_order_in_range(h: Seq<TrialRecord>, s: nat, rung: nat, k: int)
    requires
        0 <= k < promotion_order(h, s, rung).len(),
    ensures
        promotion_order(h, s, rung)[k] < h.len(),
{
    let pos = slot_positions(h, s, rung);
    lemma_rank_le_total(h);
    pos.lemma_sort_by_ensures(rank_le(h));
    lemma_slot_positions_in_range(h, s, rung);
    let x = pos.sort_by(rank_le(h))[k];
    assert(pos.sort_by(rank_le(h)).contains(x));
}


// ---------------------------------------------------------------------------
// Laws of the schedule
// ---------------------------------------------------------------------------

/// `ceil_div(a, b)` is the least multiple count of `b` that reaches `a`.
proof fn lemma_ceil_div_bounds(a: nat, b: nat)
    requires
        b >= 1,
    ensures
        ceil_div(a, b) * b >= a,
        ceil_div(a, b) >= 1 ==> (ceil_div(a, b) - 1) * b < a,
{
    vstd::arithmetic::div_mod::lemma_fundamental_div_mod(a as int, b as int);
    let q = a / b;
    let r = a % b;
    assert(0 <= r < b);
    if r == 0 {
        assert(q * b == a) by (nonlinear_arith)
            requires
                a == b * q + r,
                r == 0,
        ;
        if q >= 1 {
            assert((q - 1) * b < a) by (nonlinear_arith)
                requires
                    q * b == a,
                    b >= 1,
            ;
        }
    } else {
        assert((q + 1) * b >= a && q * b < a) by (nonlinear_arith)
            requires
                a == b * q + r,
                0 < r < b,
        ;
    }
}

/// Rounded-up quotients follow their fractions: `a1 / b1 <= a2 / b2`
/// gives `ceil(a1 / b1) <= ceil(a2 / b2)`.
proof fn lemma_ceil_div_cross(a1: nat, b1: nat, a2: nat, b2: nat)
    requires
        b1 >= 1,
        b2 >= 1,
        a1 * b2 <= a2 * b1,
    ensures
        ceil_div(a1, b1) <= ceil_div(a2, b2),
{
    lemma_ceil_div_bounds(a1, b1);
    lemma_ceil_div_bounds(a2, b2);
    let c1 = ceil_div(a1, b1);
    let c2 = ceil_div(a2, b2);
    if c1 > c2 {
        assert(c2 * b1 >= a1) by (nonlinear_arith)
            requires
                c2 * b2 >= a2,
                a1 * b2 <= a2 * b1,
                b1 >= 1,
                b2 >= 1,
        ;
        assert((c1 - 1) * b1 >= c2 * b1) by (nonlinear_arith)
            requires
                c1 > c2,
                b1 >= 1,
        ;
    }
}

/// Within a bracket each rung runs `eta` times the fidelity of the rung
/// below and holds no more trials than it; the top rung of a bracket
/// reaches the maximum resource.
pub proof fn lemma_rungs_of_a_bracket(max_resource: nat, eta: nat, s: nat, rung: nat)
    requires
        eta >= 1,
    ensures
        fidelity(max_resource, eta, s, rung + 1) == fidelity(max_resource, eta, s, rung) * eta,
        quota(max_resource, eta, s, rung + 1) <= quota(max_resource, eta, s, rung),
        fidelity(max_resource, eta, s, s) >= max_resource,
{
    let ir = spec_initial_resource(max_resource, eta, s);
    let p = power(eta, rung);
    assert(power(eta, rung + 1) == eta * p);
    assert(ir * (eta * p) == (ir * p) * eta) by (nonlinear_arith);
    let n = spec_n_configs(max_resource, eta, s);
    lemma_power_positive(eta, rung);
    lemma_power_positive(eta, rung + 1);
    if rung == 0 {
        assert(power(eta, 0) == 1);
        assert(power(eta, 1) == eta * power(eta, 0));
        assert(power(eta, 1) == eta) by (nonlinear_arith)
            requires
                power(eta, 1) == eta * power(eta, 0),
                power(eta, 0) == 1,
        ;
        assert(n * 1 <= n * eta) by (nonlinear_arith)
            requires
                eta >= 1,
        ;
        lemma_ceil_div_cross(n, eta, n, 1);
        lemma_ceil_div_bounds(n, 1);
        assert(ceil_div(n, 1) == n) by {
            vstd::arithmetic::div_mod::lemma_fundamental_div_mod(n as int, 1);
        }
    } else {
        assert(n * p <= n * (eta * p)) by (nonlinear_arith)
            requires
                eta >= 1,
        ;
        lemma_ceil_div_cross(n, eta * p, n, p);
    }
    lemma_power_positive(eta, s);
    lemma_ceil_div_bounds(max_resource, power(eta, s));
}

/// Lower brackets start fewer configurations at higher fidelity; higher
/// brackets start more configurations at lower fidelity.
pub proof fn lemma_brackets_trade_off(max_resource: nat, eta: nat, s1: nat, s2: nat)
    requires
        eta >= 2,
        s1 <= s2,
    ensures
        spec_initial_resource(max_resource, eta, s2) <= spec_initial_resource(max_resource, eta, s1),
        spec_n_configs(max_resource, eta, s1) <= spec_n_configs(max_resource, eta, s2),
    decreases s2 - s1,
{
    lemma_power_positive(eta, s1);
    lemma_power_positive(eta, s2);
    lemma_power_monotone(eta, s1, s2);
    let p1 = power(eta, s1);
    let p2 = power(eta, s2);
    assert(max_resource * p1 <= max_resource * p2) by (nonlinear_arith)
        requires
            p1 <= p2,
    ;
    lemma_ceil_div_cross(max_resource, p2, max_resource, p1);
    if s1 < s2 {
        lemma_brackets_trade_off(max_resource, eta, s1 + 1, s2);
        let big = spec_s_max(max_resource, eta) + 1;
        let a1 = (big * p1) as nat;
        let q = power(eta, s1 + 1);
        assert(q == eta * p1);
        let a2 = (big * q) as nat;
        assert(a1 * (s1 + 2) <= a2 * (s1 + 1)) by (nonlinear_arith)
            requires
                a1 == big * p1,
                a2 == big * (eta * p1),
                eta >= 2,
        ;
        lemma_ceil_div_cross(a1, s1 + 1, a2, s1 + 2);
    }
}


/// Record `j` ran at rung `rung` of bracket `s` and carries every parameter
/// of `params` with its value.
pub open spec fn carries_at(h: Seq<TrialRecord>, j: int, s: nat, rung: nat, params: Seq<(Seq<char>, Seq<char>)>) -> bool {
    &&& h[j].bracket == Some(s as u64)
    &&& h[j].rung == Some(rung as u64)
    &&& forall|i: int| 0 <= i < params.len() ==> lookup(params_of(h[j]), #[trigger] params[i].0) == Some(params[i].1)
}

proof fn lemma_first_unrun(h: Seq<TrialRecord>, order: Seq<usize>, s: nat, rung: nat)
    ensures
        first_unrun(h, order, s, rung) matches Some(i) ==> order.contains(i) && !already_run(
            h,
            s,
            rung,
            params_of(h[i as int]),
        ),
        (exists|k: int| 0 <= k < order.len() && !already_run(h, s, rung, params_of(h[#[trigger] order[k] as int])))
            ==> first_unrun(h, order, s, rung) is Some,
    decreases order.len(),
{
    if order.len() > 0 {
        lemma_first_unrun(h, order.drop_first(), s, rung);
        if already_run(h, s, rung, params_of(h[order[0] as int])) {
            match first_unrun(h, order, s, rung) {
                Some(i) => {
                    let k = choose|k: int| 0 <= k < order.drop_first().len() && order.drop_first()[k] == i;
                    assert(order[k + 1] == i);
                },
                None => {},
            }
            if exists|k: int| 0 <= k < order.len() && !already_run(h, s, rung, params_of(h[#[trigger] order[k] as int])) {
                let k = choose|k: int| 0 <= k < order.len() && !already_run(h, s, rung, params_of(h[#[trigger] order[k] as int]));
                assert(k != 0);
                assert(order.drop_first()[k - 1] == order[k]);
            }
        } else {
            assert(order[0] == order[0]);
        }
    }
}

/// A rung above the first is filled from the top of the rung below: while
/// it holds fewer trials than its quota and one of the top-quota
/// configurations of the rung below has parameters that no record at this
/// rung carries, Hyperband promotes to this rung a top-quota configuration
/// whose parameters no record here carries yet. A record at the rung that
/// carries other parameters does not count the configuration as run.
pub proof fn lemma_rung_promotes_unrun_candidate(hb: Hyperband, h: Seq<TrialRecord>, s: nat, rung: nat, c: int)
    requires
        rung > 0,
        count_at(h, s, rung) < quota(hb.max_resource as nat, hb.eta as nat, s, rung),
        0 <= c < first_n(
            promotion_order(h, s, (rung - 1) as nat),
            quota(hb.max_resource as nat, hb.eta as nat, s, rung),
        ).len(),
        forall|j: int|
            0 <= j < h.len() ==> !#[trigger] carries_at(
                h,
                j,
                s,
                rung,
                params_of(
                    h[first_n(
                        promotion_order(h, s, (rung - 1) as nat),
                        quota(hb.max_resource as nat, hb.eta as nat, s, rung),
                    )[c] as int],
                ),
            ),
    ensures
        step_at(hb, h, s, rung) matches Some(st) && st matches HyperbandStep::Promote {
            bracket,
            rung: r,
            source,
            ..
        } && bracket == s as usize && r == rung as usize && first_n(
            promotion_order(h, s, (rung - 1) as nat),
            quota(hb.max_resource as nat, hb.eta as nat, s, rung),
        ).contains(source) && forall|j: int| 0 <= j < h.len() ==> !#[trigger] carries_at(h, j, s, rung, params_of(h[source as int])),
{
    let q = quota(hb.max_resource as nat, hb.eta as nat, s, rung);
    let top = first_n(promotion_order(h, s, (rung - 1) as nat), q);
    let cand = top[c];
    assert(!already_run(h, s, rung, params_of(h[cand as int]))) by {
        if already_run(h, s, rung, params_of(h[cand as int])) {
            let j = choose|j: int|
                0 <= j < h.len() && h[j].bracket == Some(s as u64) && h[j].rung == Some(rung as u64) && subsumed(
                    params_of(h[cand as int]),
                    params_of(#[trigger] h[j]),
                );
            assert(carries_at(h, j, s, rung, params_of(h[cand as int])));
        }
    }
    lemma_first_unrun(h, top, s, rung);
    let i = first_unrun(h, top, s, rung)->0;
    assert forall|j: int| 0 <= j < h.len() implies !#[trigger] carries_at(h, j, s, rung, params_of(h[i as int])) by {
        if carries_at(h, j, s, rung, params_of(h[i as int])) {
            assert(subsumed(params_of(h[i as int]), params_of(h[j])));
        }
    }
}

} // verus!
