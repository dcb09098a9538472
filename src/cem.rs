//! The cross-entropy trainer: perturb one health state's policy, score each
//! candidate by a fresh fixed-seed rollout, and average the best.
use vstd::prelude::*;

use crate::fixed::{
    cos_turns, cos_turns_spec, div_i128, isqrt, isqrt_spec, is_isqrt, lemma_isqrt_is_spec, lemma_tdiv_bound,
    neg_ln, neg_ln_spec, tdiv, ONE,
};
use crate::policy::{param_count_of, NnPolicy, FEATURE_SIZE, HIDDEN_SIZE};
use crate::rng::{lcg_advance, lcg_iter, lcg_next, unit_of, UNIT};
use crate::sim::{
    config_ok, count_state, counts_of, lemma_counts_conserve, new_spec, policy_fits, run_spec, state_slot,
    HealthState, SimConfig, SimModel, SirCounts, Simulation, MAX_AGENTS, MAX_DT,
};

verus! {

/// The trainer's own generator: the same linear-congruential stream.
pub struct Rand {
    pub state: u32,
}

/// A standard normal sample in fixed point by the Box-Muller transform from
/// the stream states `s1` and `s2` of two draws: the first unit draw is
/// raised to at least the smallest positive fixed-point value, then
/// `sqrt(-2 ln u1) * cos(2 pi u2)`.
pub open spec fn normal_spec(s1: u32, s2: u32) -> int {
    let u1 = if unit_of(s1) < 1 { 1 } else { unit_of(s1) as int };
    let root = isqrt_spec(2 * neg_ln_spec(u1) * ONE);
    tdiv(root * cos_turns_spec(unit_of(s2) as int), ONE as int)
}

impl Rand {
    pub fn new(seed: u32) -> (r: Rand)
        ensures
            r.state == seed,
    {
        Rand { state: seed }
    }

    pub fn next_u32(&mut self) -> (r: u32)
        ensures
            final(self).state == lcg_next(old(self).state),
            r == final(self).state,
    {
        self.state = lcg_advance(self.state);
        self.state
    }

    /// A uniform draw in `[0, 1)` as fixed point.
    pub fn next_unit(&mut self) -> (r: i64)
        ensures
            final(self).state == lcg_next(old(self).state),
            r == unit_of(final(self).state),
            0 <= r < ONE,
    {
        let s = self.next_u32();
        crate::rng::unit_from(s) as i64
    }

    /// A standard normal sample in fixed point from two draws.
    pub fn normal(&mut self) -> (r: i64)
        ensures
            final(self).state == lcg_iter(old(self).state, 2),
            r == normal_spec(lcg_iter(old(self).state, 1), lcg_iter(old(self).state, 2)),
            -6 * ONE <= r <= 6 * ONE,
    {
        let ghost s0 = self.state;
        let a = self.next_unit();
        let u2 = self.next_unit();
        proof {
            reveal_with_fuel(lcg_iter, 3);
        }
        box_muller(a, u2)
    }
}

/// The Box-Muller transform of two unit draws, as `normal_spec` states it.
fn box_muller(a: i64, u2: i64) -> (r: i64)
    requires
        0 <= a <= ONE,
        0 <= u2 <= ONE,
    ensures
        r == tdiv(
            isqrt_spec(2 * neg_ln_spec(if a < 1 { 1 } else { a as int }) * ONE) * cos_turns_spec(u2 as int),
            ONE as int,
        ),
        -6 * ONE <= r <= 6 * ONE,
{
    let u1 = if a < 1 { 1 } else { a };
    let nl = neg_ln(u1);
    let root = isqrt((2 * nl * ONE) as u64) as i64;
    proof {
        lemma_isqrt_is_spec(2 * nl * ONE, root as int);
        lemma_root_bound(2 * nl * ONE, root as int);
    }
    let c = cos_turns(u2);
    assert(-6 * ONE * ONE <= root * c <= 6 * ONE * ONE) by (nonlinear_arith)
        requires 0 <= root <= 6 * ONE, -ONE <= c <= ONE;
    proof { lemma_tdiv_bound(root * c, ONE as int, 6 * ONE as int); }
    crate::fixed::div_i64(root * c, ONE)
}

proof fn lemma_root_bound(n: int, root: int)
    requires
        is_isqrt(n, root),
        n <= 28 * ONE * ONE,
    ensures
        root <= 6 * ONE,
{
    assert(root <= 6 * ONE) by (nonlinear_arith)
        requires root * root <= 28 * ONE * ONE, root >= 0;
}

/// The table slot of a health state.
pub fn state_idx(state: HealthState) -> (r: usize)
    ensures
        r == state_slot(state),
{
    state.idx()
}

/// The reward of a rollout for the policy of `state`, from its final
/// counts: Susceptible agents are rewarded for staying susceptible, Infected
/// ones for the infected and recovered they leave, Recovered ones for the
/// susceptible and recovered.
pub open spec fn fitness_spec(state: HealthState, c: SirCounts) -> int {
    match state {
        HealthState::Susceptible => c.susceptible as int,
        HealthState::Infected => c.infected + c.recovered,
        HealthState::Recovered => c.susceptible + c.recovered,
    }
}

/// The reward `fitness_spec`.
pub fn fitness(state: HealthState, c: SirCounts) -> (r: i64)
    requires
        c.susceptible + c.infected + c.recovered <= MAX_AGENTS,
    ensures
        r == fitness_spec(state, c),
{
    match state {
        HealthState::Susceptible => c.susceptible as i64,
        HealthState::Infected => (c.infected + c.recovered) as i64,
        HealthState::Recovered => (c.susceptible + c.recovered) as i64,
    }
}

/// Candidate parameters saturate at this magnitude.
pub const PARAM_LIMIT: i64 = 0x4000_0000_0000_0000;

/// Bound on the perturbation scale.
pub const MAX_SIGMA: i64 = 0x1_0000_0000;

/// Mean value `m` moved by `z * sigma` for a normal sample `z`, saturated
/// at `PARAM_LIMIT`.
pub open spec fn perturbed(m: i64, z: int, sigma: i64) -> int {
    let v = m + tdiv(z * sigma, ONE as int);
    if v < -PARAM_LIMIT {
        -PARAM_LIMIT as int
    } else if v > PARAM_LIMIT {
        PARAM_LIMIT as int
    } else {
        v
    }
}

/// A candidate around `mean`: each parameter moved by its own normal sample
/// times `sigma`, two draws each, in order.
pub fn perturb(mean: &Vec<i64>, rng: &mut Rand, sigma: i64) -> (r: Vec<i64>)
    requires
        0 <= sigma <= MAX_SIGMA,
    ensures
        r.len() == mean.len(),
        final(rng).state == lcg_iter(old(rng).state, (2 * mean.len()) as nat),
        forall|k: int|
            0 <= k < mean.len() ==> #[trigger] r@[k] == perturbed(
                mean@[k],
                normal_spec(lcg_iter(old(rng).state, (2 * k + 1) as nat), lcg_iter(old(rng).state, (2 * k + 2) as nat)),
                sigma,
            ),
        forall|k: int| 0 <= k < r.len() ==> -PARAM_LIMIT <= #[trigger] r@[k] <= PARAM_LIMIT,
{
    let ghost s0 = rng.state;
    let mut r: Vec<i64> = Vec::new();
    let mut k: usize = 0;
    while k < mean.len()
        invariant
            0 <= sigma <= MAX_SIGMA,
            k <= mean.len(),
            r.len() == k,
            rng.state == lcg_iter(s0, (2 * k) as nat),
            forall|j: int|
                0 <= j < k ==> #[trigger] r@[j] == perturbed(
                    mean@[j],
                    normal_spec(lcg_iter(s0, (2 * j + 1) as nat), lcg_iter(s0, (2 * j + 2) as nat)),
                    sigma,
                ),
            forall|j: int| 0 <= j < k ==> -PARAM_LIMIT <= #[trigger] r@[j] <= PARAM_LIMIT,
        decreases mean.len() - k,
    {
        let ghost sk = rng.state;
        let z = rng.normal();
        proof {
            crate::policy::lemma_lcg_iter_add(s0, (2 * k) as nat, 1);
            crate::policy::lemma_lcg_iter_add(s0, (2 * k) as nat, 2);
        }
        assert(-6 * ONE * MAX_SIGMA <= z * sigma <= 6 * ONE * MAX_SIGMA) by (nonlinear_arith)
            requires -6 * ONE <= z <= 6 * ONE, 0 <= sigma <= MAX_SIGMA;
        proof { lemma_tdiv_bound(z * sigma, ONE as int, 6 * MAX_SIGMA as int); }
        let step = crate::fixed::div_i64(z * sigma, ONE);
        let v: i128 = mean[k] as i128 + step as i128;
        let c: i64 = if v < -(PARAM_LIMIT as i128) {
            -PARAM_LIMIT
        } else if v > PARAM_LIMIT as i128 {
            PARAM_LIMIT
        } else {
            v as i64
        };
        r.push(c);
        k = k + 1;
    }
    r
}

/// `x` ranks before `y` by `scores`: a higher score first, ties by index.
pub open spec fn ranks_before(scores: Seq<i64>, x: int, y: int) -> bool {
    scores[x] > scores[y] || (scores[x] == scores[y] && x < y)
}

/// `order` lists every index of `scores` once, from the highest score down,
/// equal scores in index order.
pub open spec fn is_ranking(order: Seq<usize>, scores: Seq<i64>) -> bool {
    &&& order.len() == scores.len()
    &&& forall|a: int| 0 <= a < order.len() ==> #[trigger] order[a] < scores.len()
    &&& forall|a: int, b: int|
        0 <= a < b < order.len() ==> ranks_before(scores, #[trigger] order[a] as int, #[trigger] order[b] as int)
    &&& forall|j: int| 0 <= j < scores.len() ==> #[trigger] order.contains(j as usize)
}

/// The indices of `scores` from the highest score down, equal scores in
/// index order (a stable sort).
pub fn rank_by_score(scores: &Vec<i64>) -> (r: Vec<usize>)
    ensures
        is_ranking(r@, scores@),
{
    let n = scores.len();
    let mut order: Vec<usize> = Vec::new();
    let mut i: usize = 0;
    while i < n
        invariant
            n == scores.len(),
            i <= n,
            order.len() == i,
            forall|a: int| 0 <= a < order.len() ==> #[trigger] order@[a] < i,
            forall|a: int, b: int|
                0 <= a < b < order.len() ==> ranks_before(scores@, #[trigger] order@[a] as int, #[trigger] order@[b] as int),
            forall|j: int| 0 <= j < i ==> #[trigger] order@.contains(j as usize),
        decreases n - i,
    {
        let si = scores[i];
        let mut p: usize = 0;
        while p < order.len() && scores[order[p]] >= si
            invariant
                n == scores.len(),
                i < n,
                p <= order.len(),
                order.len() == i,
                forall|a: int| 0 <= a < order.len() ==> #[trigger] order@[a] < i,
                forall|a: int| 0 <= a < p ==> scores@[#[trigger] order@[a] as int] >= si,
            decreases order.len() - p,
        {
            p = p + 1;
        }
        let ghost old_order = order@;
        proof {
            assert forall|a: int| p <= a < old_order.len() implies scores@[#[trigger] old_order[a] as int] < si by {
                if a > p {
                    assert(ranks_before(scores@, old_order[p as int] as int, old_order[a] as int));
                }
            }
        }
        order.insert(p, i);
        proof {
            old_order.insert_ensures(p as int, i);
            let o = order@;
            assert forall|a: int| 0 <= a < o.len() implies #[trigger] o[a] < i + 1 by {
                if a < p {
                } else if a > p {
                    assert(o[a] == old_order[a - 1]);
                }
            }
            assert forall|a: int, b: int|
                0 <= a < b < o.len() implies ranks_before(scores@, #[trigger] o[a] as int, #[trigger] o[b] as int) by {
                if b < p {
                    assert(ranks_before(scores@, old_order[a] as int, old_order[b] as int));
                } else if b == p {
                    assert(o[a] == old_order[a]);
                } else if a < p {
                    assert(o[b] == old_order[b - 1]);
                    assert(o[a] == old_order[a]);
                    assert(ranks_before(scores@, old_order[a] as int, old_order[b - 1] as int));
                } else if a == p {
                    assert(o[b] == old_order[b - 1]);
                } else {
                    assert(o[b] == old_order[b - 1]);
                    assert(o[a] == old_order[a - 1]);
                    assert(ranks_before(scores@, old_order[a - 1] as int, old_order[b - 1] as int));
                }
            }
            assert forall|j: int| 0 <= j < i + 1 implies #[trigger] o.contains(j as usize) by {
                if j == i {
                    assert(o[p as int] == j as usize);
                } else {
                    assert(old_order.contains(j as usize));
                    let a = choose|a: int| 0 <= a < old_order.len() && old_order[a] == j as usize;
                    if a < p {
                        assert(o[a] == j as usize);
                    } else {
                        assert(o[a + 1] == j as usize);
                    }
                }
            }
        }
        i = i + 1;
    }
    order
}

/// Most candidates one iteration may draw.
pub const MAX_POP: usize = 0x10_0000;

/// `sum_{t < e} cands[order[t]][k]`.
pub open spec fn elite_sum(cands: Seq<Seq<i64>>, order: Seq<usize>, k: int, e: nat) -> int
    decreases e,
{
    if e == 0 {
        0
    } else {
        elite_sum(cands, order, k, (e - 1) as nat) + cands[order[e - 1] as int][k]
    }
}

/// The parameter-wise mean of the first `elite` candidates in `order`,
/// rounded toward zero, over parameters of length `len`.
pub open spec fn elite_mean(cands: Seq<Seq<i64>>, order: Seq<usize>, elite: nat, len: nat) -> Seq<i64> {
    Seq::new(len, |k: int| tdiv(elite_sum(cands, order, k, elite), elite as int) as i64)
}

/// Every candidate has `len` parameters, each within `PARAM_LIMIT`.
pub open spec fn candidates_ok(cands: Seq<Seq<i64>>, len: nat) -> bool {
    forall|c: int|
        0 <= c < cands.len() ==> (#[trigger] cands[c]).len() == len && forall|k: int|
            0 <= k < len ==> -PARAM_LIMIT <= #[trigger] cands[c][k] <= PARAM_LIMIT
}

/// The elite step of the trainer: rank the candidates by score (highest
/// first, ties by index), average the parameters of the best `elite`, and
/// report the best score.
pub fn refine_from_scores(cands: &Vec<Vec<i64>>, scores: &Vec<i64>, elite: usize) -> (r: (Vec<i64>, i64))
    requires
        1 <= elite <= scores.len(),
        cands.len() == scores.len(),
        scores.len() <= MAX_POP,
        candidates_ok(cands@.map_values(|v: Vec<i64>| v@), cands@[0]@.len()),
    ensures
        exists|order: Seq<usize>|
            is_ranking(order, scores@) && r.1 == scores@[order[0] as int] && r.0@ == elite_mean(
                cands@.map_values(|v: Vec<i64>| v@),
                order,
                elite as nat,
                cands@[0]@.len(),
            ),
        forall|c: int| 0 <= c < scores.len() ==> #[trigger] scores@[c] <= r.1,
        exists|c: int| 0 <= c < scores.len() && #[trigger] scores@[c] == r.1,
        forall|k: int| 0 <= k < r.0.len() ==> -PARAM_LIMIT <= #[trigger] r.0@[k] <= PARAM_LIMIT,
{
    let ghost cs = cands@.map_values(|v: Vec<i64>| v@);
    let order = rank_by_score(scores);
    assert(order@.len() > 0);
    let best = scores[order[0]];
    let len = cands[0].len();
    let mut mean: Vec<i64> = Vec::new();
    let mut k: usize = 0;
    while k < len
        invariant
            k <= len,
            len == cands@[0]@.len(),
            cs == cands@.map_values(|v: Vec<i64>| v@),
            candidates_ok(cs, len as nat),
            is_ranking(order@, scores@),
            cands.len() == scores.len(),
            1 <= elite <= scores.len(),
            scores.len() <= MAX_POP,
            mean.len() == k,
            forall|j: int| 0 <= j < k ==> #[trigger] mean@[j] == elite_mean(cs, order@, elite as nat, len as nat)[j],
            forall|j: int| 0 <= j < k ==> -PARAM_LIMIT <= #[trigger] mean@[j] <= PARAM_LIMIT,
        decreases len - k,
    {
        let mut acc: i128 = 0;
        let mut e: usize = 0;
        while e < elite
            invariant
                e <= elite,
                k < len,
                len == cands@[0]@.len(),
                cs == cands@.map_values(|v: Vec<i64>| v@),
                candidates_ok(cs, len as nat),
                is_ranking(order@, scores@),
                cands.len() == scores.len(),
                1 <= elite <= scores.len(),
                scores.len() <= MAX_POP,
                acc == elite_sum(cs, order@, k as int, e as nat),
                -(e as int) * PARAM_LIMIT <= acc <= (e as int) * PARAM_LIMIT,
            decreases elite - e,
        {
            let c = order[e];
            assert(cs[c as int] == cands@[c as int]@);
            assert(cs[c as int].len() == len);
            assert(-PARAM_LIMIT <= cs[c as int][k as int] <= PARAM_LIMIT);
            assert((e as int) * PARAM_LIMIT + PARAM_LIMIT == ((e + 1) as int) * PARAM_LIMIT) by (nonlinear_arith);
            assert(((e + 1) as int) * PARAM_LIMIT <= (MAX_POP as int) * PARAM_LIMIT) by (nonlinear_arith)
                requires e + 1 <= MAX_POP;
            acc = acc + cands[c][k] as i128;
            e = e + 1;
        }
        proof { lemma_tdiv_bound(acc as int, elite as int, PARAM_LIMIT as int); }
        mean.push(div_i128(acc, elite as i128) as i64);
        k = k + 1;
    }
    proof {
        assert(mean@ =~= elite_mean(cs, order@, elite as nat, len as nat));
        assert forall|c: int| 0 <= c < scores.len() implies #[trigger] scores@[c] <= best by {
            assert(order@.contains(c as usize));
            let a = choose|a: int| 0 <= a < order@.len() && order@[a] == c as usize;
            if a > 0 {
                assert(ranks_before(scores@, order@[0] as int, order@[a] as int));
            }
        }
        assert(scores@[order@[0] as int] == best);
    }
    (mean, best)
}

/// Agents in a standard scoring rollout.
pub const ROLLOUT_AGENTS: usize = 1200;

/// Steps in a standard scoring rollout.
pub const ROLLOUT_STEPS: usize = 600;

/// Step length of a standard scoring rollout: 1/60 s, rounded down.
pub const ROLLOUT_DT: i64 = 1092;

/// How one trainer iteration runs: candidates, elite size, perturbation
/// scale, and the shape of each scoring rollout.
#[derive(Clone, Copy, Debug)]
pub struct CemSettings {
    pub pop_size: usize,
    pub elite: usize,
    pub sigma: i64,
    pub agents: usize,
    pub steps: usize,
    pub dt: i64,
    pub seed: u32,
}

/// The settings can be run.
pub open spec fn settings_ok(s: CemSettings) -> bool {
    &&& 1 <= s.elite <= s.pop_size <= MAX_POP
    &&& 0 <= s.sigma <= MAX_SIGMA
    &&& s.agents <= MAX_AGENTS
    &&& 0 <= s.dt <= MAX_DT
}

/// The standard settings.
pub open spec fn standard_settings() -> CemSettings {
    CemSettings {
        pop_size: 24,
        elite: 6,
        sigma: 22938,
        agents: ROLLOUT_AGENTS,
        steps: ROLLOUT_STEPS,
        dt: ROLLOUT_DT,
        seed: 9001,
    }
}

impl CemSettings {
    /// 24 candidates, the best 6 averaged, perturbation scale 0.35; each
    /// scored by 600 steps of 1/60 s with 1200 agents from seed 9001.
    pub fn standard() -> (r: CemSettings)
        ensures
            settings_ok(r),
            r == standard_settings(),
    {
        CemSettings {
            pop_size: 24,
            elite: 6,
            sigma: 22938,
            agents: ROLLOUT_AGENTS,
            steps: ROLLOUT_STEPS,
            dt: ROLLOUT_DT,
            seed: 9001,
        }
    }
}

/// Three engine-ready policies, one per health state.
pub open spec fn policies_ok(policies: Seq<NnPolicy>) -> bool {
    policies.len() == 3 && forall|k: int| 0 <= k < 3 ==> policy_fits(#[trigger] policies[k]@)
}

/// Run `steps` steps of length `dt` of a fresh simulation of `agents`
/// agents from `seed` with the given policies; the final counts.
pub fn run_rollout(cfg: SimConfig, policies: &Vec<NnPolicy>, seed: u32, agents: usize, steps: usize, dt: i64) -> (r: SirCounts)
    requires
        policies_ok(policies@),
        agents <= MAX_AGENTS,
        0 <= dt <= MAX_DT,
    ensures
        r.susceptible + r.infected + r.recovered == agents,
        r == rollout_counts(cfg, policy_models(policies@), seed, agents as nat, steps as nat, dt),
{
    let mut sim = Simulation::new(agents, cfg, seed);
    sim.set_policy_for(HealthState::Susceptible, policies[0].duplicate());
    sim.set_policy_for(HealthState::Infected, policies[1].duplicate());
    sim.set_policy_for(HealthState::Recovered, policies[2].duplicate());
    let ghost m0 = sim@;
    proof {
        let ps = policy_models(policies@);
        let t0 = SimModel { policies: ps, ..new_spec(agents as nat, cfg, seed) };
        assert(m0.policies =~= ps);
        assert(m0 == t0);
    }
    let mut t: usize = 0;
    while t < steps
        invariant
            sim.wf(),
            sim@.pos_x.len() == agents,
            0 <= dt <= MAX_DT,
            t <= steps,
            sim@ == run_spec(m0, dt, t as nat),
        decreases steps - t,
    {
        sim.step(dt);
        t = t + 1;
    }
    sim.counts()
}

/// The policy models of engine policies.
pub open spec fn policy_models(policies: Seq<NnPolicy>) -> Seq<crate::policy::PolicyModel> {
    policies.map_values(|p: NnPolicy| p@)
}

/// The final counts of a rollout: a new simulation of `agents` agents from
/// `seed` with the given policies, run `steps` steps of length `dt`.
pub open spec fn rollout_counts(
    cfg: SimConfig,
    policies: Seq<crate::policy::PolicyModel>,
    seed: u32,
    agents: nat,
    steps: nat,
    dt: i64,
) -> SirCounts {
    counts_of(run_spec(SimModel { policies, ..new_spec(agents, cfg, seed) }, dt, steps))
}

/// Score the parameter vector `params` as the policy of `state`, the other
/// two policies as given: a fresh rollout, then `fitness` of its final
/// counts.
pub fn evaluate(cfg: SimConfig, policies: &Vec<NnPolicy>, state: HealthState, params: &Vec<i64>, settings: &CemSettings) -> (r: i64)
    requires
        policies_ok(policies@),
        params.len() == param_count_of(FEATURE_SIZE as nat, HIDDEN_SIZE as nat),
        settings_ok(*settings),
    ensures
        exists|c: SirCounts|
            c.susceptible + c.infected + c.recovered == settings.agents && r == fitness_spec(state, c),
        0 <= r <= settings.agents,
        r == rollout_score(cfg, policy_models(policies@), state, params@, *settings),
{
    let candidate = NnPolicy::from_vec(FEATURE_SIZE, HIDDEN_SIZE, params);
    let mut ps: Vec<NnPolicy> = Vec::new();
    ps.push(policies[0].duplicate());
    ps.push(policies[1].duplicate());
    ps.push(policies[2].duplicate());
    let slot = state_idx(state);
    ps.set(slot, candidate);
    proof {
        assert forall|k: int| 0 <= k < 3 implies policy_fits(#[trigger] ps@[k]@) by {
            if k != slot {
                assert(ps@[k]@ == policies@[k]@);
            }
        }
    }
    proof {
        assert(policy_models(ps@) =~= policy_models(policies@).update(
            state_slot(state),
            crate::policy::model_from_params(FEATURE_SIZE as nat, HIDDEN_SIZE as nat, params@),
        ));
    }
    let c = run_rollout(cfg, &ps, settings.seed, settings.agents, settings.steps, settings.dt);
    fitness(state, c)
}

/// The score of parameters `params` as the policy of `state`, the other
/// policies as given: `fitness_spec` of the counts of a rollout with the
/// settings' seed, size and length.
pub open spec fn rollout_score(
    cfg: SimConfig,
    policies: Seq<crate::policy::PolicyModel>,
    state: HealthState,
    params: Seq<i64>,
    settings: CemSettings,
) -> int {
    let ps = policies.update(
        state_slot(state),
        crate::policy::model_from_params(FEATURE_SIZE as nat, HIDDEN_SIZE as nat, params),
    );
    fitness_spec(
        state,
        rollout_counts(cfg, ps, settings.seed, settings.agents as nat, settings.steps as nat, settings.dt),
    )
}

/// The final counts `(susceptible, infected, recovered)` of a standard
/// rollout from `seed` with the given policies.
pub fn sim_counts_after(cfg: SimConfig, policies: &Vec<NnPolicy>, seed: u32) -> (r: (usize, usize, usize))
    requires
        policies_ok(policies@),
    ensures
        r.0 + r.1 + r.2 == ROLLOUT_AGENTS,
        ({
            let c = rollout_counts(
                cfg,
                policy_models(policies@),
                seed,
                ROLLOUT_AGENTS as nat,
                ROLLOUT_STEPS as nat,
                ROLLOUT_DT,
            );
            r == (c.susceptible, c.infected, c.recovered)
        }),
{
    let c = run_rollout(cfg, policies, seed, ROLLOUT_AGENTS, ROLLOUT_STEPS, ROLLOUT_DT);
    (c.susceptible, c.infected, c.recovered)
}

/// The candidate `perturb` draws around `mean` from stream state `s`.
pub open spec fn perturbation(mean: Seq<i64>, s: u32, sigma: i64) -> Seq<i64> {
    Seq::new(
        mean.len(),
        |k: int| perturbed(mean[k], normal_spec(lcg_iter(s, (2 * k + 1) as nat), lcg_iter(s, (2 * k + 2) as nat)), sigma) as i64,
    )
}

/// What one refinement of the policy of `state` returns (`policy`,
/// `best`) when the generator goes from `s0` to `s1`: the candidates are
/// drawn by `perturb` around the current parameters, one after the other
/// from `s0`; each has a rollout score; `best` is the highest score and
/// `policy` holds the mean of the `elite` best candidates.
pub open spec fn cem_outcome(
    cfg: SimConfig,
    policies: Seq<NnPolicy>,
    state: HealthState,
    s0: u32,
    s1: u32,
    settings: CemSettings,
    policy: crate::policy::PolicyModel,
    best: i64,
) -> bool {
    let mean = policies[state_slot(state)]@.params();
    let len = mean.len();
    &&& s1 == lcg_iter(s0, (2 * len * settings.pop_size) as nat)
    &&& exists|cands: Seq<Seq<i64>>, scores: Seq<i64>, order: Seq<usize>|
        {
            &&& cands.len() == settings.pop_size
            &&& scores.len() == settings.pop_size
            &&& forall|c: int|
                0 <= c < settings.pop_size ==> #[trigger] cands[c] == perturbation(
                    mean,
                    lcg_iter(s0, (2 * len * c) as nat),
                    settings.sigma,
                )
            &&& forall|c: int|
                0 <= c < settings.pop_size ==> #[trigger] scores[c] == rollout_score(
                    cfg,
                    policy_models(policies),
                    state,
                    cands[c],
                    settings,
                )
            &&& is_ranking(order, scores)
            &&& best == scores[order[0] as int]
            &&& policy.params() == elite_mean(cands, order, settings.elite as nat, len)
        }
}

/// One cross-entropy refinement of the policy of `state`, the other two
/// held fixed: `pop_size` candidates drawn around the current parameters
/// (in order, each from where the generator stood after the previous),
/// each scored by `evaluate`, then `refine_from_scores`. Returns the new
/// policy and the best score seen.
pub fn cem_iteration_with(
    cfg: SimConfig,
    policies: &Vec<NnPolicy>,
    state: HealthState,
    rng: &mut Rand,
    settings: &CemSettings,
) -> (r: (NnPolicy, i64))
    requires
        policies_ok(policies@),
        settings_ok(*settings),
    ensures
        policy_fits(r.0@),
        cem_outcome(cfg, policies@, state, old(rng).state, final(rng).state, *settings, r.0@, r.1),
{
    let ghost s0 = rng.state;
    let slot = state_idx(state);
    let mean = policies[slot].to_vec();
    let ghost len = mean@.len();
    let mut cands: Vec<Vec<i64>> = Vec::new();
    let mut scores: Vec<i64> = Vec::new();
    let mut c: usize = 0;
    while c < settings.pop_size
        invariant
            policies_ok(policies@),
            settings_ok(*settings),
            slot == state_slot(state),
            mean@ == policies@[slot as int]@.params(),
            len == mean@.len(),
            len == param_count_of(FEATURE_SIZE as nat, HIDDEN_SIZE as nat),
            c <= settings.pop_size,
            cands.len() == c,
            scores.len() == c,
            rng.state == lcg_iter(s0, (2 * len * c) as nat),
            forall|j: int| 0 <= j < c ==> #[trigger] cands@[j]@ == perturbation(mean@, lcg_iter(s0, (2 * len * j) as nat), settings.sigma),
            forall|j: int| 0 <= j < c ==> -PARAM_LIMIT <= #[trigger] scores@[j] <= PARAM_LIMIT,
            forall|j: int| 0 <= j < c ==> #[trigger] scores@[j] == rollout_score(cfg, policy_models(policies@), state, cands@[j]@, *settings),
            candidates_ok(cands@.map_values(|v: Vec<i64>| v@), len),
        decreases settings.pop_size - c,
    {
        let ghost sc = rng.state;
        let params = perturb(&mean, rng, settings.sigma);
        proof {
            crate::policy::lemma_lcg_iter_add(s0, (2 * len * c) as nat, (2 * len) as nat);
            assert((2 * len * c + 2 * len) as nat == (2 * len * (c + 1)) as nat) by (nonlinear_arith);
            assert(params@ =~= perturbation(mean@, sc, settings.sigma));
        }
        let score = evaluate(cfg, policies, state, &params, settings);
        let ghost before = cands@.map_values(|v: Vec<i64>| v@);
        cands.push(params);
        scores.push(score);
        proof {
            let cs = cands@.map_values(|v: Vec<i64>| v@);
            assert forall|j: int| 0 <= j < cs.len() implies (#[trigger] cs[j]).len() == len && forall|k: int|
                0 <= k < len ==> -PARAM_LIMIT <= #[trigger] cs[j][k] <= PARAM_LIMIT by {
                if j < c {
                    assert(cs[j] == before[j]);
                }
            }
        }
        c = c + 1;
    }
    let ghost cs = cands@.map_values(|v: Vec<i64>| v@);
    proof {
        assert(cs[0] == cands@[0]@);
    }
    let (m, best) = refine_from_scores(&cands, &scores, settings.elite);
    proof {
        assert(m@.len() == len);
    }
    let policy = NnPolicy::from_vec(FEATURE_SIZE, HIDDEN_SIZE, &m);
    proof {
        let order = choose|order: Seq<usize>|
            is_ranking(order, scores@) && best == scores@[order[0] as int] && m@ == elite_mean(
                cs,
                order,
                settings.elite as nat,
                len,
            );
        assert forall|j: int| 0 <= j < settings.pop_size implies #[trigger] cs[j] == perturbation(
            policies@[state_slot(state)]@.params(),
            lcg_iter(s0, (2 * len * j) as nat),
            settings.sigma,
        ) by {
            assert(cs[j] == cands@[j]@);
        }
        assert forall|j: int| 0 <= j < settings.pop_size implies #[trigger] scores@[j] == rollout_score(
            cfg,
            policy_models(policies@),
            state,
            cs[j],
            *settings,
        ) by {
            assert(cs[j] == cands@[j]@);
        }
    }
    (policy, best)
}

/// One cross-entropy refinement with the standard settings.
pub fn cem_one_iteration(cfg: SimConfig, policies: &Vec<NnPolicy>, state: HealthState, rng: &mut Rand) -> (r: (NnPolicy, i64))
    requires
        policies_ok(policies@),
    ensures
        policy_fits(r.0@),
        cem_outcome(cfg, policies@, state, old(rng).state, final(rng).state, standard_settings(), r.0@, r.1),
{
    let settings = CemSettings::standard();
    cem_iteration_with(cfg, policies, state, rng, &settings)
}

} // verus!
