//! The simulation engine: agents that flock under per-state policies while
//! an SIR epidemic spreads among them.
use vstd::prelude::*;

use crate::fixed::{
    chance_of_rate, chance_of_rate_spec, clamp_i64, clamp_spec, cos_turns, div_i128, div_i64, isqrt,
    is_isqrt, lemma_component_within_length, lemma_tdiv_bound, scale_ratio, sin_turns, tdiv, Vec2f, ONE,
};
use crate::grid::{
    found_in_block, in_block, in_range, lemma_grid_matches_brute_force, within, SpatialHash, MAX_COORD,
};
use crate::policy::{NnPolicy, PolicyModel, FEATURE_SIZE, HIDDEN_SIZE, INPUT_LIMIT};
use crate::rng::{lcg_iter, lcg_next, unit_of, Lcg, UNIT};

verus! {

/// Most agents a simulation holds (2^20): a limit of the representation,
/// under which every neighbour sum stays within its integer type.
pub const MAX_AGENTS: usize = 0x10_0000;

/// Largest speed, force, radius or infection rate (fixed point 4096.0): a
/// limit of the 64-bit representation. `new` and the setters lower a larger
/// value to it, as they raise a too small one to its minimum.
pub const MAX_PARAM: i64 = 0x1000_0000;

/// Largest infectious period (fixed point 2^24 seconds), a limit of the
/// representation; larger periods are lowered to it.
pub const MAX_PERIOD: i64 = 0x100_0000_0000;

/// Longest step: fixed point 4.0. Together with `MAX_PARAM` it keeps every
/// product of the step within 64 bits.
pub const MAX_DT: i64 = 0x4_0000;

/// Smallest separation radius (fixed point 0.5).
pub const MIN_SEPARATION: i64 = 32768;

/// Smallest infectious period (fixed point 0.1, rounded down).
pub const MIN_PERIOD: i64 = 6553;

/// Initial policy weights are drawn from `[-scale, scale]` with this scale
/// (fixed point 0.6, rounded down).
pub const INIT_SCALE: i64 = 39321;

/// Neighbour counts at or above this give the neighbour-density feature 1.0.
pub const CROWD: usize = 20;

/// An agent's epidemic compartment.
#[derive(Clone, Copy, Debug, PartialEq, Eq, Structural)]
pub enum HealthState {
    Susceptible,
    Infected,
    Recovered,
}

/// The slot of each health state in per-state tables.
pub open spec fn state_slot(s: HealthState) -> int {
    match s {
        HealthState::Susceptible => 0,
        HealthState::Infected => 1,
        HealthState::Recovered => 2,
    }
}

impl HealthState {
    /// The slot of this state in per-state tables: 0, 1, 2 in the order
    /// Susceptible, Infected, Recovered.
    pub fn idx(self) -> (r: usize)
        ensures
            r == state_slot(self),
    {
        match self {
            HealthState::Susceptible => 0,
            HealthState::Infected => 1,
            HealthState::Recovered => 2,
        }
    }
}

/// Parameters of a run, all fixed point but `initial_infected`.
#[derive(Clone, Copy, Debug, PartialEq, Eq, Structural)]
pub struct SimConfig {
    pub world_size: Vec2f,
    pub max_speed: i64,
    pub max_force: i64,
    pub neighbor_radius: i64,
    pub separation_radius: i64,
    pub infection_radius: i64,
    pub infection_beta: i64,
    pub infectious_period: i64,
    pub initial_infected: usize,
}

/// How many agents are in each compartment.
#[derive(Clone, Copy, Debug, PartialEq, Eq, Structural, Default)]
pub struct SirCounts {
    pub susceptible: usize,
    pub infected: usize,
    pub recovered: usize,
}

/// Every parameter lies in its safe range.
pub open spec fn config_ok(c: SimConfig) -> bool {
    &&& 1 <= c.world_size.x <= MAX_COORD
    &&& 1 <= c.world_size.y <= MAX_COORD
    &&& ONE <= c.max_speed <= MAX_PARAM
    &&& ONE <= c.max_force <= MAX_PARAM
    &&& ONE <= c.neighbor_radius <= MAX_PARAM
    &&& MIN_SEPARATION <= c.separation_radius <= c.neighbor_radius
    &&& ONE <= c.infection_radius <= MAX_PARAM
    &&& 0 <= c.infection_beta <= MAX_PARAM
    &&& MIN_PERIOD <= c.infectious_period <= MAX_PERIOD
}

/// The radius-like parameters of `c` clamped into their safe ranges.
pub open spec fn motion_clamped(c: SimConfig, neighbor_radius: i64, separation_radius: i64, max_speed: i64, max_force: i64) -> SimConfig {
    let nr = clamp_spec(neighbor_radius as int, ONE as int, MAX_PARAM as int) as i64;
    SimConfig {
        neighbor_radius: nr,
        separation_radius: clamp_spec(separation_radius as int, MIN_SEPARATION as int, nr as int) as i64,
        max_speed: clamp_spec(max_speed as int, ONE as int, MAX_PARAM as int) as i64,
        max_force: clamp_spec(max_force as int, ONE as int, MAX_PARAM as int) as i64,
        ..c
    }
}

/// The infection parameters of `c` clamped into their safe ranges.
pub open spec fn infection_clamped(c: SimConfig, infection_radius: i64, infection_beta: i64, infectious_period: i64) -> SimConfig {
    SimConfig {
        infection_radius: clamp_spec(infection_radius as int, ONE as int, MAX_PARAM as int) as i64,
        infection_beta: clamp_spec(infection_beta as int, 0, MAX_PARAM as int) as i64,
        infectious_period: clamp_spec(infectious_period as int, MIN_PERIOD as int, MAX_PERIOD as int) as i64,
        ..c
    }
}

/// A world size clamped into its safe range: a positive size is kept (up
/// to `MAX_COORD`); a non-positive one becomes the smallest positive
/// fixed-point value.
pub open spec fn world_clamped(size: Vec2f) -> Vec2f {
    Vec2f {
        x: clamp_spec(size.x as int, 1, MAX_COORD as int) as i64,
        y: clamp_spec(size.y as int, 1, MAX_COORD as int) as i64,
    }
}

/// `c` with every parameter clamped into its safe range.
pub open spec fn sanitized(c: SimConfig) -> SimConfig {
    let m = motion_clamped(c, c.neighbor_radius, c.separation_radius, c.max_speed, c.max_force);
    let i = infection_clamped(m, c.infection_radius, c.infection_beta, c.infectious_period);
    SimConfig { world_size: world_clamped(c.world_size), ..i }
}

/// The grid's cell size for a configuration: the larger of the two radii.
pub open spec fn cell_size_for(c: SimConfig) -> i64 {
    if c.neighbor_radius >= c.infection_radius { c.neighbor_radius } else { c.infection_radius }
}

/// Toroidal wrap of one coordinate into `[0, size)`.
pub open spec fn wrap_spec(p: int, size: int) -> int {
    p % size
}

/// Wrap coordinate `p` into `[0, size)`.
pub fn wrap_coord(p: i64, size: i64) -> (r: i64)
    requires
        size > 0,
        p > i64::MIN,
    ensures
        r == wrap_spec(p as int, size as int),
        0 <= r < size,
{
    if p >= 0 {
        p % size
    } else {
        let m = (-p) % size;
        proof {
            let q = (-p) as int / size as int;
            assert(-p == size * q + m) by (nonlinear_arith)
                requires q == (-p) as int / size as int, m == (-p) as int % size as int, size > 0;
            if m == 0 {
                assert(p == size * (-q)) by (nonlinear_arith)
                    requires -p == size * q + m, m == 0;
                assert((p as int) % (size as int) == 0) by (nonlinear_arith)
                    requires p == size * (-q), size > 0;
            } else {
                assert(p == size * (-q - 1) + (size - m)) by (nonlinear_arith)
                    requires -p == size * q + m;
                assert((p as int) % (size as int) == size - m) by (nonlinear_arith)
                    requires p == size * (-q - 1) + (size - m), 0 < size - m < size;
            }
        }
        if m == 0 { 0 } else { size - m }
    }
}

/// Wrap a position into the world, axis by axis.
pub fn wrap_position(pos: Vec2f, size: Vec2f) -> (r: Vec2f)
    requires
        size.x > 0,
        size.y > 0,
        pos.x > i64::MIN,
        pos.y > i64::MIN,
    ensures
        r.x == wrap_spec(pos.x as int, size.x as int),
        r.y == wrap_spec(pos.y as int, size.y as int),
        0 <= r.x < size.x,
        0 <= r.y < size.y,
{
    Vec2f { x: wrap_coord(pos.x, size.x), y: wrap_coord(pos.y, size.y) }
}

/// Toroidal wrap: a coordinate that reaches the world's edge exactly wraps to
/// zero, and one just below zero wraps to just below the edge.
pub proof fn lemma_wrap_edges(size: int, eps: int)
    requires
        size > 0,
        0 < eps <= size,
    ensures
        wrap_spec(size, size) == 0,
        wrap_spec(-eps, size) == size - eps,
        forall|p: int| 0 <= p < size ==> #[trigger] wrap_spec(p, size) == p,
{
    assert(size % size == 0) by (nonlinear_arith)
        requires size > 0;
    assert((-eps) % size == size - eps) by (nonlinear_arith)
        requires size > 0, 0 < eps <= size, -eps == size * (-1) + (size - eps);
    assert forall|p: int| 0 <= p < size implies #[trigger] wrap_spec(p, size) == p by {
        assert(p % size == p) by (nonlinear_arith)
            requires 0 <= p < size;
    }
}

fn sanitize(c: SimConfig) -> (r: SimConfig)
    ensures
        r == sanitized(c),
        config_ok(r),
{
    let nr = clamp_i64(c.neighbor_radius, ONE, MAX_PARAM);
    SimConfig {
        world_size: Vec2f {
            x: clamp_i64(c.world_size.x, 1, MAX_COORD),
            y: clamp_i64(c.world_size.y, 1, MAX_COORD),
        },
        max_speed: clamp_i64(c.max_speed, ONE, MAX_PARAM),
        max_force: clamp_i64(c.max_force, ONE, MAX_PARAM),
        neighbor_radius: nr,
        separation_radius: clamp_i64(c.separation_radius, MIN_SEPARATION, nr),
        infection_radius: clamp_i64(c.infection_radius, ONE, MAX_PARAM),
        infection_beta: clamp_i64(c.infection_beta, 0, MAX_PARAM),
        infectious_period: clamp_i64(c.infectious_period, MIN_PERIOD, MAX_PERIOD),
        initial_infected: c.initial_infected,
    }
}

/// Number of entries of `s` equal to `h`.
pub open spec fn count_state(s: Seq<HealthState>, h: HealthState) -> nat
    decreases s.len(),
{
    if s.len() == 0 {
        0
    } else {
        count_state(s.drop_last(), h) + if s.last() == h { 1nat } else { 0nat }
    }
}

/// Population conservation: the three compartment counts of any population
/// add up to its size.
pub proof fn lemma_counts_conserve(s: Seq<HealthState>)
    ensures
        count_state(s, HealthState::Susceptible) + count_state(s, HealthState::Infected) + count_state(
            s,
            HealthState::Recovered,
        ) == s.len(),
    decreases s.len(),
{
    if s.len() > 0 {
        lemma_counts_conserve(s.drop_last());
    }
}

/// What a simulation is: its agents' columns, configuration, policies and
/// generator state.
pub struct SimModel {
    pub pos_x: Seq<i64>,
    pub pos_y: Seq<i64>,
    pub vel_x: Seq<i64>,
    pub vel_y: Seq<i64>,
    pub state: Seq<HealthState>,
    pub infected_time: Seq<i64>,
    pub cfg: SimConfig,
    pub policies: Seq<PolicyModel>,
    pub rng_state: u32,
}

/// Agent `j` other than `i` is Infected and strictly within the infection
/// radius of `i`.
pub open spec fn infects(m: SimModel, i: int, j: int) -> bool {
    &&& j != i
    &&& 0 <= j < m.state.len()
    &&& m.state[j] == HealthState::Infected
    &&& within(m.pos_x[j], m.pos_y[j], m.pos_x[i], m.pos_y[i], m.cfg.infection_radius)
}

/// Agent `i` has an infected contact in the current positions.
pub open spec fn has_infected_contact(m: SimModel, i: int) -> bool {
    exists|j: int| infects(m, i, j)
}

/// The health state and infection timer of an agent after one step of
/// length `dt`, given whether it was infected during the step: a new
/// infection enters Infected with its timer at zero; an Infected agent's
/// timer advances by `dt`, and it recovers once the timer reaches the
/// infectious period.
pub open spec fn advance_health(s: HealthState, t: i64, infect: bool, dt: i64, period: i64) -> (HealthState, i64) {
    let (s1, t1) = if infect { (HealthState::Infected, 0i64) } else { (s, t) };
    if s1 == HealthState::Infected {
        let t2 = (t1 + dt) as i64;
        if t2 >= period { (HealthState::Recovered, t2) } else { (HealthState::Infected, t2) }
    } else {
        (s1, t1)
    }
}

/// The progress order of the health states.
pub open spec fn progress_rank(s: HealthState) -> int {
    state_slot(s)
}

/// Monotonic epidemic progress: an agent's state only moves forward through
/// Susceptible, Infected, Recovered; Recovered is terminal; an infection only
/// ever strikes a Susceptible agent and starts its timer at zero.
pub proof fn lemma_health_only_advances(s: HealthState, t: i64, infect: bool, dt: i64, period: i64)
    requires
        infect ==> s == HealthState::Susceptible,
        0 <= dt,
    ensures
        progress_rank(advance_health(s, t, infect, dt, period).0) >= progress_rank(s),
        s == HealthState::Recovered ==> advance_health(s, t, infect, dt, period) == (s, t),
        !infect && s == HealthState::Susceptible ==> advance_health(s, t, infect, dt, period) == (s, t),
        infect && advance_health(s, t, infect, dt, period).0 == HealthState::Infected
            ==> advance_health(s, t, infect, dt, period).1 == dt,
{
}

/// The agents, their configuration, the grid, the generator and one policy
/// per health state.
pub struct Simulation {
    pos_x: Vec<i64>,
    pos_y: Vec<i64>,
    vel_x: Vec<i64>,
    vel_y: Vec<i64>,
    state: Vec<HealthState>,
    infected_time: Vec<i64>,
    grid: SpatialHash,
    cfg: SimConfig,
    rng: Lcg,
    policies: Vec<NnPolicy>,
}

impl View for Simulation {
    type V = SimModel;

    closed spec fn view(&self) -> SimModel {
        SimModel {
            pos_x: self.pos_x@,
            pos_y: self.pos_y@,
            vel_x: self.vel_x@,
            vel_y: self.vel_y@,
            state: self.state@,
            infected_time: self.infected_time@,
            cfg: self.cfg,
            policies: self.policies@.map_values(|p: NnPolicy| p@),
            rng_state: self.rng.state,
        }
    }
}

/// A policy the engine can run: the standard shape, well formed.
pub open spec fn policy_fits(p: PolicyModel) -> bool {
    p.wf() && p.input_size == FEATURE_SIZE && p.hidden_size == HIDDEN_SIZE
}

/// Agent `i` lies in the grid's range, moves no faster than the largest
/// speed on either axis, and has a timer within bounds.
pub open spec fn agent_cols_ok(
    pos_x: Seq<i64>,
    pos_y: Seq<i64>,
    vel_x: Seq<i64>,
    vel_y: Seq<i64>,
    state: Seq<HealthState>,
    infected_time: Seq<i64>,
    i: int,
) -> bool {
    &&& in_range(pos_x[i])
    &&& in_range(pos_y[i])
    &&& -MAX_PARAM <= vel_x[i] <= MAX_PARAM
    &&& -MAX_PARAM <= vel_y[i] <= MAX_PARAM
    &&& 0 <= infected_time[i] <= MAX_PERIOD + MAX_DT
    &&& (state[i] == HealthState::Infected ==> infected_time[i] <= MAX_PERIOD)
}

/// Every agent is in order, and the columns have one length.
pub open spec fn agents_ok(m: SimModel) -> bool {
    let n = m.pos_x.len();
    &&& n <= MAX_AGENTS
    &&& m.pos_y.len() == n
    &&& m.vel_x.len() == n
    &&& m.vel_y.len() == n
    &&& m.state.len() == n
    &&& m.infected_time.len() == n
    &&& forall|i: int|
        0 <= i < n ==> #[trigger] agent_cols_ok(m.pos_x, m.pos_y, m.vel_x, m.vel_y, m.state, m.infected_time, i)
}

/// A new simulation of `count` agents with configuration `cfg` from seed
/// `seed`. The generator draws, in order: four per agent for its position
/// and velocity (`spawn_spec`), one per parameter of each of the three
/// policies (Susceptible, Infected, Recovered), then one per seeded
/// infection.
pub open spec fn new_spec(count: nat, cfg: SimConfig, seed: u32) -> SimModel {
    let c = sanitized(cfg);
    let s_pol = lcg_iter(seed, 4 * count);
    let s_inf = lcg_iter(s_pol, (POLICY_PARAMS * 3) as nat);
    let k = seed_count(c.initial_infected as int, count as int);
    SimModel {
        pos_x: Seq::new(count, |i: int| spawn_spec(c, lcg_iter(seed, (4 * i) as nat)).0),
        pos_y: Seq::new(count, |i: int| spawn_spec(c, lcg_iter(seed, (4 * i) as nat)).1),
        vel_x: Seq::new(count, |i: int| spawn_spec(c, lcg_iter(seed, (4 * i) as nat)).2),
        vel_y: Seq::new(count, |i: int| spawn_spec(c, lcg_iter(seed, (4 * i) as nat)).3),
        state: Seq::new(
            count,
            |i: int| if seeded(s_inf, count as int, k, i) { HealthState::Infected } else { HealthState::Susceptible },
        ),
        infected_time: Seq::new(count, |i: int| 0i64),
        cfg: c,
        policies: Seq::new(3, |q: int| initial_policy(lcg_iter(s_pol, (POLICY_PARAMS * q) as nat))),
        rng_state: lcg_iter(s_inf, k as nat),
    }
}

/// How many infections are seeded: `initial` but at most the population.
pub open spec fn seed_count(initial: int, n: int) -> int {
    if initial < n { initial } else { n }
}

/// The agent a seeding draw from stream state `s` picks among `n`.
pub open spec fn seed_pick(s: u32, n: int) -> int {
    let pick = (unit_of(s) as int) * n / UNIT as int;
    if pick < n { pick } else { n - 1 }
}

/// Agent `i` is picked by one of the first `c` seeding draws from stream
/// state `s`.
pub open spec fn seeded(s: u32, n: int, c: int, i: int) -> bool {
    exists|k: int| 0 <= k < c && #[trigger] seed_pick(lcg_iter(s, (k + 1) as nat), n) == i
}

proof fn lemma_seeded_next(s: u32, n: int, c: int, i: int)
    requires
        0 <= c,
    ensures
        seeded(s, n, c + 1, i) == (seeded(s, n, c, i) || seed_pick(lcg_iter(s, (c + 1) as nat), n) == i),
{
    if seeded(s, n, c + 1, i) && !(seed_pick(lcg_iter(s, (c + 1) as nat), n) == i) {
        let k = choose|k: int| 0 <= k < c + 1 && #[trigger] seed_pick(lcg_iter(s, (k + 1) as nat), n) == i;
        assert(k < c);
    }
    if seed_pick(lcg_iter(s, (c + 1) as nat), n) == i {
        assert(0 <= c < c + 1 && seed_pick(lcg_iter(s, (c + 1) as nat), n) == i);
    }
    if seeded(s, n, c, i) {
        let k = choose|k: int| 0 <= k < c && #[trigger] seed_pick(lcg_iter(s, (k + 1) as nat), n) == i;
        assert(0 <= k < c + 1);
    }
}

/// Number of parameters of an engine policy.
pub const POLICY_PARAMS: usize = 274;

/// Parameters drawn uniformly from `[-scale, scale]`, one draw each, from
/// stream state `s`.
pub open spec fn random_params(s: u32, scale: i64) -> Seq<i64> {
    Seq::new(POLICY_PARAMS as nat, |t: int| crate::policy::random_param(lcg_iter(s, (t + 1) as nat), scale))
}

/// The engine-shaped policy drawn from stream state `s` at the initial
/// scale.
pub open spec fn initial_policy(s: u32) -> PolicyModel {
    crate::policy::model_from_params(FEATURE_SIZE as nat, HIDDEN_SIZE as nat, random_params(s, INIT_SCALE))
}

/// The direction of an agent drawn from stream state `s`, as a fraction of
/// a turn in `[0, 1)` (the third draw).
pub open spec fn spawn_turn(s: u32) -> int {
    unit_of(lcg_iter(s, 3)) as int
}

/// The speed of an agent drawn from stream state `s`: the largest speed
/// times a fraction from 0.3 to 1.0 set by the fourth draw.
pub open spec fn spawn_speed(cfg: SimConfig, s: u32) -> int {
    let us = unit_of(lcg_iter(s, 4)) as int;
    let frac = 19661 + 45875 * us / ONE as int;
    cfg.max_speed * frac / ONE as int
}

/// The velocity of an agent drawn from stream state `s`: its speed
/// (`spawn_speed`) in its direction (`spawn_turn`).
pub open spec fn spawn_velocity(cfg: SimConfig, s: u32) -> (i64, i64) {
    let turn = spawn_turn(s);
    let speed = spawn_speed(cfg, s);
    (
        tdiv(crate::fixed::cos_turns_spec(turn) * speed, ONE as int) as i64,
        tdiv(crate::fixed::sin_turns_spec(turn) * speed, ONE as int) as i64,
    )
}

proof fn lemma_speed_fraction(ms: int, frac: int)
    requires
        0 < ms,
        19661 <= frac <= ONE,
    ensures
        ms * 19661 / ONE as int <= ms * frac / ONE as int <= ms,
{
    assert(ms * 19661 <= ms * frac <= ms * ONE) by (nonlinear_arith)
        requires 0 < ms, 19661 <= frac <= ONE;
    vstd::arithmetic::div_mod::lemma_div_is_ordered(ms * 19661, ms * frac, ONE as int);
    vstd::arithmetic::div_mod::lemma_div_is_ordered(ms * frac, ms * ONE, ONE as int);
    assert((ms * ONE) / ONE as int == ms) by (nonlinear_arith);
}

/// Initial speed: an agent that `new` places moves at 30% to 100% of the
/// largest speed (the fraction is 19661 / 65536 at least), in a direction
/// that is a fraction of a turn in `[0, 1)`; its velocity is
/// `spawn_velocity`, so `new_spec`'s.
pub proof fn lemma_spawn_speed_range(cfg: SimConfig, s: u32)
    requires
        config_ok(cfg),
    ensures
        cfg.max_speed * 19661 / ONE as int <= spawn_speed(cfg, s) <= cfg.max_speed,
        0 <= spawn_turn(s) < ONE,
{
    let us = unit_of(lcg_iter(s, 4)) as int;
    crate::rng::lemma_unit_range(lcg_iter(s, 4));
    crate::rng::lemma_unit_range(lcg_iter(s, 3));
    let frac = 19661 + 45875 * us / ONE as int;
    assert(45875 * us / ONE as int <= 45875) by (nonlinear_arith)
        requires 0 <= us < ONE;
    assert(0 <= 45875 * us / ONE as int) by (nonlinear_arith)
        requires 0 <= us;
    lemma_speed_fraction(cfg.max_speed as int, frac);
}

/// One agent drawn from stream state `s` (four draws): its position
/// uniform in the world, then a direction (a fraction of a turn) and a
/// speed from 30% to 100% of the largest speed, as `(x, y, vx, vy)`.
pub open spec fn spawn_spec(cfg: SimConfig, s: u32) -> (i64, i64, i64, i64) {
    let wx = cfg.world_size.x as int;
    let wy = cfg.world_size.y as int;
    let ux = unit_of(lcg_iter(s, 1)) as int;
    let uy = unit_of(lcg_iter(s, 2)) as int;
    (
        wrap_spec(ux * wx / UNIT as int, wx) as i64,
        wrap_spec(uy * wy / UNIT as int, wy) as i64,
        spawn_velocity(cfg, s).0,
        spawn_velocity(cfg, s).1,
    )
}

/// Draw one agent's position (uniform in the world) and velocity (a uniform
/// direction at 30% to 100% of the largest speed), four draws in that order.
fn spawn_agent(rng: &mut Lcg, cfg: &SimConfig) -> (r: (i64, i64, i64, i64))
    requires
        config_ok(*cfg),
    ensures
        r == spawn_spec(*cfg, old(rng).state),
        final(rng).state == lcg_iter(old(rng).state, 4),
        0 <= r.0 < cfg.world_size.x,
        0 <= r.1 < cfg.world_size.y,
        -MAX_PARAM <= r.2 <= MAX_PARAM,
        -MAX_PARAM <= r.3 <= MAX_PARAM,
{
    let wx = cfg.world_size.x;
    let wy = cfg.world_size.y;
    let ghost s0 = rng.state;
    let ux = rng.next_unit();
    let uy = rng.next_unit();
    assert((ux as int) * (wx as int) / (UNIT as int) <= wx) by (nonlinear_arith)
        requires ux <= UNIT, 0 < wx;
    assert((uy as int) * (wy as int) / (UNIT as int) <= wy) by (nonlinear_arith)
        requires uy <= UNIT, 0 < wy;
    assert(0 <= (ux as int) * (wx as int)) by (nonlinear_arith)
        requires 0 <= ux, 0 < wx;
    assert(0 <= (uy as int) * (wy as int)) by (nonlinear_arith)
        requires 0 <= uy, 0 < wy;
    let px = wrap_coord((ux as i64) * wx / (UNIT as i64), wx);
    let py = wrap_coord((uy as i64) * wy / (UNIT as i64), wy);
    let turn = rng.next_unit() as i64;
    let us = rng.next_unit() as i64;
    let frac: i64 = 19661 + 45875 * us / ONE;
    assert(0 <= frac <= ONE) by (nonlinear_arith)
        requires frac == 19661 + 45875 * us / (ONE as int), 0 <= us <= ONE;
    assert(0 <= cfg.max_speed * frac <= MAX_PARAM * ONE) by (nonlinear_arith)
        requires 0 <= frac <= ONE, ONE <= cfg.max_speed <= MAX_PARAM;
    let speed = cfg.max_speed * frac / ONE;
    assert(0 <= speed <= MAX_PARAM) by (nonlinear_arith)
        requires speed == cfg.max_speed * frac / (ONE as int), 0 <= cfg.max_speed * frac <= MAX_PARAM * ONE;
    let c = cos_turns(turn);
    let sn = sin_turns(turn);
    assert(-MAX_PARAM * ONE <= c * speed <= MAX_PARAM * ONE) by (nonlinear_arith)
        requires -ONE <= c <= ONE, 0 <= speed <= MAX_PARAM;
    assert(-MAX_PARAM * ONE <= sn * speed <= MAX_PARAM * ONE) by (nonlinear_arith)
        requires -ONE <= sn <= ONE, 0 <= speed <= MAX_PARAM;
    let vx = div_i64(c * speed, ONE);
    let vy = div_i64(sn * speed, ONE);
    proof {
        lemma_tdiv_bound((c * speed) as int, ONE as int, MAX_PARAM as int);
        lemma_tdiv_bound((sn * speed) as int, ONE as int, MAX_PARAM as int);
        reveal_with_fuel(lcg_iter, 5);
    }
    (px, py, vx, vy)
}

/// Draw `count` agents one after the other (`spawn_spec`, four draws each).
fn spawn_all(count: usize, cfg: &SimConfig, rng: &mut Lcg) -> (r: (Vec<i64>, Vec<i64>, Vec<i64>, Vec<i64>))
    requires
        config_ok(*cfg),
        count <= MAX_AGENTS,
    ensures
        r.0.len() == count,
        r.1.len() == count,
        r.2.len() == count,
        r.3.len() == count,
        final(rng).state == lcg_iter(old(rng).state, (4 * count) as nat),
        forall|i: int|
            0 <= i < count ==> (#[trigger] r.0@[i], r.1@[i], r.2@[i], r.3@[i]) == spawn_spec(
                *cfg,
                lcg_iter(old(rng).state, (4 * i) as nat),
            ),
        forall|i: int|
            0 <= i < count ==> {
                &&& 0 <= #[trigger] r.0@[i] < cfg.world_size.x
                &&& 0 <= r.1@[i] < cfg.world_size.y
                &&& -MAX_PARAM <= r.2@[i] <= MAX_PARAM
                &&& -MAX_PARAM <= r.3@[i] <= MAX_PARAM
            },
{
    let ghost s0 = rng.state;
    let mut pos_x: Vec<i64> = Vec::new();
    let mut pos_y: Vec<i64> = Vec::new();
    let mut vel_x: Vec<i64> = Vec::new();
    let mut vel_y: Vec<i64> = Vec::new();
    let mut k: usize = 0;
    while k < count
        invariant
            k <= count,
            config_ok(*cfg),
            pos_x.len() == k,
            pos_y.len() == k,
            vel_x.len() == k,
            vel_y.len() == k,
            rng.state == lcg_iter(s0, (4 * k) as nat),
            forall|i: int|
                0 <= i < k ==> (#[trigger] pos_x@[i], pos_y@[i], vel_x@[i], vel_y@[i]) == spawn_spec(
                    *cfg,
                    lcg_iter(s0, (4 * i) as nat),
                ),
            forall|i: int|
                0 <= i < k ==> {
                    &&& 0 <= #[trigger] pos_x@[i] < cfg.world_size.x
                    &&& 0 <= pos_y@[i] < cfg.world_size.y
                    &&& -MAX_PARAM <= vel_x@[i] <= MAX_PARAM
                    &&& -MAX_PARAM <= vel_y@[i] <= MAX_PARAM
                },
        decreases count - k,
    {
        let (px, py, vx, vy) = spawn_agent(rng, cfg);
        proof {
            crate::policy::lemma_lcg_iter_add(s0, (4 * k) as nat, 4);
        }
        let ghost (ox, oy, ovx, ovy) = (pos_x@, pos_y@, vel_x@, vel_y@);
        pos_x.push(px);
        pos_y.push(py);
        vel_x.push(vx);
        vel_y.push(vy);
        proof {
            assert forall|i: int| 0 <= i < k + 1 implies (#[trigger] pos_x@[i], pos_y@[i], vel_x@[i], vel_y@[i])
                == spawn_spec(*cfg, lcg_iter(s0, (4 * i) as nat)) && {
                &&& 0 <= pos_x@[i] < cfg.world_size.x
                &&& 0 <= pos_y@[i] < cfg.world_size.y
                &&& -MAX_PARAM <= vel_x@[i] <= MAX_PARAM
                &&& -MAX_PARAM <= vel_y@[i] <= MAX_PARAM
            } by {
                if i < k {
                    assert(ox[i] == pos_x@[i] && oy[i] == pos_y@[i] && ovx[i] == vel_x@[i] && ovy[i] == vel_y@[i]);
                }
            }
        }
        k = k + 1;
    }
    (pos_x, pos_y, vel_x, vel_y)
}

impl Simulation {
    /// What the engine's invariant gives a caller: every agent is in
    /// order, the configuration is in its safe ranges, and there are three
    /// engine-ready policies.
    pub proof fn lemma_wf_facts(&self)
        requires
            self.wf(),
        ensures
            agents_ok(self@),
            config_ok(self@.cfg),
            self@.policies.len() == 3,
            forall|k: int| 0 <= k < 3 ==> policy_fits(#[trigger] self@.policies[k]),
    {
    }

    /// The engine's invariant.
    pub closed spec fn wf(&self) -> bool {
        &&& agents_ok(self@)
        &&& config_ok(self.cfg)
        &&& self.grid.wf()
        &&& self.grid.cell_size_spec() == cell_size_for(self.cfg)
        &&& self.policies.len() == 3
        &&& forall|k: int| 0 <= k < 3 ==> policy_fits(#[trigger] self.policies@[k]@)
    }

    /// `count` agents placed uniformly at random in the world, each moving in
    /// a random direction at 30% to 100% of the largest speed; all
    /// Susceptible but up to `initial_infected` drawn at random, which start
    /// Infected. The configuration is clamped into its safe ranges; each
    /// policy is drawn uniformly from `[-0.6, 0.6]`.
    pub fn new(count: usize, cfg: SimConfig, seed: u32) -> (r: Simulation)
        requires
            count <= MAX_AGENTS,
        ensures
            r.wf(),
            r@.pos_x.len() == count,
            r@.cfg == sanitized(cfg),
            forall|i: int|
                0 <= i < count ==> {
                    &&& 0 <= #[trigger] r@.pos_x[i] < r@.cfg.world_size.x
                    &&& 0 <= r@.pos_y[i] < r@.cfg.world_size.y
                    &&& r@.state[i] != HealthState::Recovered
                    &&& r@.infected_time[i] == 0
                },
            count_state(r@.state, HealthState::Infected) <= cfg.initial_infected,
            count > 0 && cfg.initial_infected > 0 ==> exists|i: int|
                0 <= i < count && #[trigger] r@.state[i] == HealthState::Infected,
            r@ == new_spec(count as nat, cfg, seed),
    {
        let ghost cfg0 = cfg;
        let cfg = sanitize(cfg);
        let mut rng = Lcg::new(seed);
        let wx = cfg.world_size.x;
        let wy = cfg.world_size.y;
        let (pos_x, pos_y, vel_x, vel_y) = spawn_all(count, &cfg, &mut rng);
        let mut state: Vec<HealthState> = Vec::new();
        let mut infected_time: Vec<i64> = Vec::new();
        let mut k: usize = 0;
        while k < count
            invariant
                k <= count,
                state.len() == k,
                infected_time.len() == k,
                forall|i: int| 0 <= i < k ==> #[trigger] state@[i] == HealthState::Susceptible && infected_time@[i] == 0,
            decreases count - k,
        {
            state.push(HealthState::Susceptible);
            infected_time.push(0);
            k = k + 1;
        }
        let mut policies: Vec<NnPolicy> = Vec::new();
        let mut p: usize = 0;
        let ghost s_pol = rng.state;
        while p < 3
            invariant
                p <= 3,
                policies.len() == p,
                forall|q: int| 0 <= q < p ==> policy_fits(#[trigger] policies@[q]@),
                rng.state == lcg_iter(s_pol, (POLICY_PARAMS * p) as nat),
                forall|q: int|
                    0 <= q < p ==> #[trigger] policies@[q]@ == initial_policy(lcg_iter(s_pol, (POLICY_PARAMS * q) as nat)),
            decreases 3 - p,
        {
            let ghost sp = rng.state;
            let mut pol = NnPolicy::new(FEATURE_SIZE, HIDDEN_SIZE);
            pol.randomize(&mut rng, INIT_SCALE);
            proof {
                crate::policy::lemma_policy_round_trip(pol@);
                assert(pol@.params() =~= random_params(sp, INIT_SCALE));
                crate::policy::lemma_lcg_iter_add(s_pol, (POLICY_PARAMS * p) as nat, POLICY_PARAMS as nat);
                assert(POLICY_PARAMS * p + POLICY_PARAMS == POLICY_PARAMS * (p + 1)) by (nonlinear_arith);
            }
            policies.push(pol);
            proof {
                assert forall|q: int| 0 <= q < p + 1 implies #[trigger] policies@[q]@ == initial_policy(
                    lcg_iter(s_pol, (POLICY_PARAMS * q) as nat),
                ) by {
                }
            }
            p = p + 1;
        }
        let grid = SpatialHash::new(if cfg.neighbor_radius >= cfg.infection_radius {
            cfg.neighbor_radius
        } else {
            cfg.infection_radius
        });
        let ghost pos_x_g = pos_x@;
        let ghost pos_y_g = pos_y@;
        let ghost vel_x_g = vel_x@;
        let ghost vel_y_g = vel_y@;
        let ghost state_g = state@;
        let mut sim = Simulation { pos_x, pos_y, vel_x, vel_y, state, infected_time, grid, cfg, rng, policies };
        assert forall|i: int| 0 <= i < count implies #[trigger] sim@.state[i] == HealthState::Susceptible by {
            assert(state_g[i] == HealthState::Susceptible);
        }
        assert(agents_ok(sim@)) by {
            assert forall|i: int| 0 <= i < count implies #[trigger] agent_cols_ok(sim@.pos_x, sim@.pos_y, sim@.vel_x, sim@.vel_y, sim@.state, sim@.infected_time, i) by {
                assert(0 <= pos_x_g[i] < wx);
                assert(state_g[i] == HealthState::Susceptible);
            }
        }
        let ghost before_seed = sim@;
        proof {
            assert(sim@.rng_state == lcg_iter(s_pol, (POLICY_PARAMS * 3) as nat));
        }
        sim.seed_infections();
        proof {
            let t = new_spec(count as nat, cfg0, seed);
            let s_inf = lcg_iter(s_pol, (POLICY_PARAMS * 3) as nat);
            crate::policy::lemma_lcg_iter_add(seed, (4 * count) as nat, (POLICY_PARAMS * 3) as nat);
            assert(s_pol == lcg_iter(seed, (4 * count) as nat));
            assert(s_inf == lcg_iter(seed, (4 * count + 3 * POLICY_PARAMS) as nat));
            assert forall|i: int| 0 <= i < count implies sim@.pos_x[i] == t.pos_x[i] && sim@.pos_y[i] == t.pos_y[i]
                && sim@.vel_x[i] == t.vel_x[i] && sim@.vel_y[i] == t.vel_y[i] by {
                assert((pos_x_g[i], pos_y_g[i], vel_x_g[i], vel_y_g[i]) == spawn_spec(cfg, lcg_iter(seed, (4 * i) as nat)));
            }
            assert forall|i: int| 0 <= i < count implies sim@.state[i] == t.state[i] && sim@.infected_time[i]
                == t.infected_time[i] by {
                assert(before_seed.state[i] == HealthState::Susceptible);
                assert(state_g[i] == HealthState::Susceptible);
            }
            assert(sim@.pos_x =~= t.pos_x);
            assert(sim@.pos_y =~= t.pos_y);
            assert(sim@.vel_x =~= t.vel_x);
            assert(sim@.vel_y =~= t.vel_y);
            assert(sim@.state =~= t.state);
            assert(sim@.infected_time =~= t.infected_time);
            assert(sim@.policies =~= t.policies);
        }
        sim
    }

    /// Infect up to `initial_infected` agents drawn at random (the same agent
    /// may be drawn twice).
    fn seed_infections(&mut self)
        requires
            old(self).wf(),
            forall|i: int| 0 <= i < old(self)@.state.len() ==> #[trigger] old(self)@.state[i] == HealthState::Susceptible,
        ensures
            final(self).wf(),
            final(self)@.pos_x == old(self)@.pos_x,
            final(self)@.pos_y == old(self)@.pos_y,
            final(self)@.cfg == old(self)@.cfg,
            forall|i: int|
                0 <= i < final(self)@.state.len() ==> {
                    &&& #[trigger] final(self)@.state[i] != HealthState::Recovered
                    &&& (final(self)@.state[i] == HealthState::Infected ==> final(self)@.infected_time[i] == 0)
                    &&& (final(self)@.state[i] == HealthState::Susceptible ==> final(self)@.infected_time[i] == old(self)@.infected_time[i])
                },
            count_state(final(self)@.state, HealthState::Infected) <= old(self)@.cfg.initial_infected,
            final(self)@.state.len() > 0 && old(self)@.cfg.initial_infected > 0 ==> exists|i: int|
                0 <= i < final(self)@.state.len() && #[trigger] final(self)@.state[i] == HealthState::Infected,
            ({
                let n = old(self)@.pos_x.len() as int;
                let c = seed_count(old(self)@.cfg.initial_infected as int, n);
                &&& final(self)@.rng_state == lcg_iter(old(self)@.rng_state, c as nat)
                &&& final(self)@.vel_x == old(self)@.vel_x
                &&& final(self)@.vel_y == old(self)@.vel_y
                &&& final(self)@.policies == old(self)@.policies
                &&& final(self)@.state.len() == n
                &&& final(self)@.infected_time.len() == n
                &&& forall|i: int|
                    0 <= i < n ==> #[trigger] final(self)@.state[i] == (if seeded(old(self)@.rng_state, n, c, i) {
                        HealthState::Infected
                    } else {
                        old(self)@.state[i]
                    }) && final(self)@.infected_time[i] == (if seeded(old(self)@.rng_state, n, c, i) {
                        0
                    } else {
                        old(self)@.infected_time[i]
                    })
            }),
    {
        let ghost s0 = self.rng.state;
        let n = self.pos_x.len();
        let count = if self.cfg.initial_infected < n { self.cfg.initial_infected } else { n };
        let mut k: usize = 0;
        proof { lemma_count_none(self@.state, HealthState::Infected); }
        while k < count
            invariant
                k <= count,
                count <= n,
                n == self.pos_x.len(),
                count <= self.cfg.initial_infected,
                self.wf(),
                self@.pos_x == old(self)@.pos_x,
                self@.pos_y == old(self)@.pos_y,
                self@.cfg == old(self)@.cfg,
                self@.state.len() == n,
                forall|i: int|
                    0 <= i < n ==> {
                        &&& #[trigger] self@.state[i] != HealthState::Recovered
                        &&& (self@.state[i] == HealthState::Infected ==> self@.infected_time[i] == 0)
                        &&& (self@.state[i] == HealthState::Susceptible ==> self@.infected_time[i] == old(self)@.infected_time[i])
                    },
                count_state(self@.state, HealthState::Infected) <= k,
                k > 0 ==> exists|i: int| 0 <= i < n && #[trigger] self@.state[i] == HealthState::Infected,
                count == seed_count(old(self)@.cfg.initial_infected as int, n as int),
                s0 == old(self)@.rng_state,
                self@.rng_state == lcg_iter(s0, k as nat),
                self@.vel_x == old(self)@.vel_x,
                self@.vel_y == old(self)@.vel_y,
                self@.policies == old(self)@.policies,
                self@.infected_time.len() == n,
                old(self)@.state.len() == n,
                old(self)@.infected_time.len() == n,
                forall|i: int|
                    0 <= i < n ==> #[trigger] self@.state[i] == (if seeded(s0, n as int, k as int, i) {
                        HealthState::Infected
                    } else {
                        old(self)@.state[i]
                    }) && self@.infected_time[i] == (if seeded(s0, n as int, k as int, i) {
                        0
                    } else {
                        old(self)@.infected_time[i]
                    }),
            decreases count - k,
        {
            let ghost sk = self.rng.state;
            let u = self.rng.next_unit();
            assert((u as int) * (n as int) / (UNIT as int) <= n) by (nonlinear_arith)
                requires u <= UNIT, 0 < n;
            assert((u as int) * (n as int) <= UNIT * MAX_AGENTS) by (nonlinear_arith)
                requires u <= UNIT, n <= MAX_AGENTS;
            let pick = ((u as u64) * (n as u64) / UNIT) as usize;
            let idx = if pick < n { pick } else { n - 1 };
            let ghost before = self@.state;
            let ghost before_all = self@;
            self.state.set(idx, HealthState::Infected);
            self.infected_time.set(idx, 0);
            proof {
                lemma_count_set(before, idx as int, HealthState::Infected, HealthState::Infected);
                assert forall|i: int| 0 <= i < n implies #[trigger] agent_cols_ok(self@.pos_x, self@.pos_y, self@.vel_x, self@.vel_y, self@.state, self@.infected_time, i) by {
                    assert(agent_cols_ok(before_all.pos_x, before_all.pos_y, before_all.vel_x, before_all.vel_y, before_all.state, before_all.infected_time, i));
                }
                assert(agents_ok(self@));
                assert(self@.state[idx as int] == HealthState::Infected);
                assert(idx == seed_pick(lcg_iter(s0, (k + 1) as nat), n as int));
                assert forall|i: int| 0 <= i < n implies #[trigger] self@.state[i] == (if seeded(s0, n as int, (k + 1) as int, i) {
                    HealthState::Infected
                } else {
                    old(self)@.state[i]
                }) && self@.infected_time[i] == (if seeded(s0, n as int, (k + 1) as int, i) {
                    0
                } else {
                    old(self)@.infected_time[i]
                }) by {
                    lemma_seeded_next(s0, n as int, k as int, i);
                    if i != idx {
                        assert(self@.state[i] == before_all.state[i]);
                        assert(self@.infected_time[i] == before_all.infected_time[i]);
                    }
                }
            }
            k = k + 1;
        }
        proof {
            if count == 0 {
                assert forall|i: int| 0 <= i < n implies !seeded(s0, n as int, 0, i) by {}
            }
        }
    }

    /// Set the world's size: a non-positive axis becomes the smallest
    /// positive fixed-point value, and an axis beyond `MAX_COORD` (16384.0,
    /// the representation's range) is lowered to it.
    pub fn set_world_size(&mut self, size: Vec2f)
        requires
            old(self).wf(),
        ensures
            final(self).wf(),
            final(self)@ == (SimModel { cfg: SimConfig { world_size: world_clamped(size), ..old(self)@.cfg }, ..old(self)@ }),
    {
        self.cfg.world_size = Vec2f {
            x: clamp_i64(size.x, 1, MAX_COORD),
            y: clamp_i64(size.y, 1, MAX_COORD),
        };
    }

    /// Set the flocking parameters, each clamped to its safe range: the
    /// neighbour radius, speed and force to at least 1.0 (and at most
    /// `MAX_PARAM`, the representation's limit), the separation radius into
    /// `[0.5, neighbor_radius]`.
    pub fn set_motion_params(&mut self, neighbor_radius: i64, separation_radius: i64, max_speed: i64, max_force: i64)
        requires
            old(self).wf(),
        ensures
            final(self).wf(),
            final(self)@ == (SimModel {
                cfg: motion_clamped(old(self)@.cfg, neighbor_radius, separation_radius, max_speed, max_force),
                ..old(self)@
            }),
    {
        let nr = clamp_i64(neighbor_radius, ONE, MAX_PARAM);
        self.cfg.neighbor_radius = nr;
        self.cfg.separation_radius = clamp_i64(separation_radius, MIN_SEPARATION, nr);
        self.cfg.max_speed = clamp_i64(max_speed, ONE, MAX_PARAM);
        self.cfg.max_force = clamp_i64(max_force, ONE, MAX_PARAM);
        let cs = if self.cfg.neighbor_radius >= self.cfg.infection_radius {
            self.cfg.neighbor_radius
        } else {
            self.cfg.infection_radius
        };
        self.grid.set_cell_size(cs);
    }

    /// Set the infection parameters, each clamped to its safe range: the
    /// radius to at least 1.0, the rate to at least 0, the infectious period
    /// to at least 0.1; the radius and rate to at most `MAX_PARAM` and the
    /// period to at most `MAX_PERIOD`, the representation's limits.
    pub fn set_infection_params(&mut self, infection_radius: i64, infection_beta: i64, infectious_period: i64)
        requires
            old(self).wf(),
        ensures
            final(self).wf(),
            final(self)@ == (SimModel {
                cfg: infection_clamped(old(self)@.cfg, infection_radius, infection_beta, infectious_period),
                ..old(self)@
            }),
    {
        self.cfg.infection_radius = clamp_i64(infection_radius, ONE, MAX_PARAM);
        self.cfg.infection_beta = clamp_i64(infection_beta, 0, MAX_PARAM);
        self.cfg.infectious_period = clamp_i64(infectious_period, MIN_PERIOD, MAX_PERIOD);
        let cs = if self.cfg.neighbor_radius >= self.cfg.infection_radius {
            self.cfg.neighbor_radius
        } else {
            self.cfg.infection_radius
        };
        self.grid.set_cell_size(cs);
    }

    /// How many agents are in each compartment.
    pub fn counts(&self) -> (r: SirCounts)
        requires
            self.wf(),
        ensures
            r.susceptible == count_state(self@.state, HealthState::Susceptible),
            r.infected == count_state(self@.state, HealthState::Infected),
            r.recovered == count_state(self@.state, HealthState::Recovered),
            r.susceptible + r.infected + r.recovered == self@.state.len(),
            self@.state.len() == self@.pos_x.len(),
    {
        let mut c = SirCounts { susceptible: 0, infected: 0, recovered: 0 };
        let mut k: usize = 0;
        while k < self.state.len()
            invariant
                k <= self.state.len(),
                c.susceptible == count_state(self@.state.subrange(0, k as int), HealthState::Susceptible),
                c.infected == count_state(self@.state.subrange(0, k as int), HealthState::Infected),
                c.recovered == count_state(self@.state.subrange(0, k as int), HealthState::Recovered),
            decreases self.state.len() - k,
        {
            proof {
                let pre = self@.state.subrange(0, k + 1);
                assert(pre.drop_last() == self@.state.subrange(0, k as int));
                lemma_counts_conserve(self@.state.subrange(0, k as int));
            }
            match self.state[k] {
                HealthState::Susceptible => c.susceptible = c.susceptible + 1,
                HealthState::Infected => c.infected = c.infected + 1,
                HealthState::Recovered => c.recovered = c.recovered + 1,
            }
            k = k + 1;
        }
        proof {
            assert(self@.state.subrange(0, self@.state.len() as int) == self@.state);
            lemma_counts_conserve(self@.state);
        }
        c
    }

    /// The policy that steers agents in `state`.
    pub fn policy_for(&self, state: HealthState) -> (r: &NnPolicy)
        requires
            self.wf(),
        ensures
            r@ == self@.policies[state_slot(state)],
            policy_fits(r@),
            self@.policies.len() == 3,
    {
        &self.policies[state.idx()]
    }

    /// Replace the policy that steers agents in `state`.
    pub fn set_policy_for(&mut self, state: HealthState, policy: NnPolicy)
        requires
            old(self).wf(),
            policy_fits(policy@),
        ensures
            final(self).wf(),
            final(self)@ == (SimModel { policies: old(self)@.policies.update(state_slot(state), policy@), ..old(self)@ }),
            final(self)@.policies.len() == 3,
    {
        let i = state.idx();
        self.policies.set(i, policy);
        proof {
            assert(self@.policies =~= old(self)@.policies.update(state_slot(state), policy@));
        }
    }

    /// The configuration in force.
    pub fn config(&self) -> (r: SimConfig)
        ensures
            r == self@.cfg,
    {
        self.cfg
    }

    /// Number of agents.
    pub fn boid_count(&self) -> (r: usize)
        requires
            self.wf(),
        ensures
            r == self@.pos_x.len(),
    {
        self.pos_x.len()
    }

    /// Position of agent `idx`.
    pub fn boid_pos(&self, idx: usize) -> (r: Vec2f)
        requires
            self.wf(),
            idx < self@.pos_x.len(),
        ensures
            r == (Vec2f { x: self@.pos_x[idx as int], y: self@.pos_y[idx as int] }),
    {
        Vec2f { x: self.pos_x[idx], y: self.pos_y[idx] }
    }

    /// Velocity of agent `idx`.
    pub fn boid_vel(&self, idx: usize) -> (r: Vec2f)
        requires
            self.wf(),
            idx < self@.pos_x.len(),
        ensures
            r == (Vec2f { x: self@.vel_x[idx as int], y: self@.vel_y[idx as int] }),
    {
        Vec2f { x: self.vel_x[idx], y: self.vel_y[idx] }
    }

    /// Health state of agent `idx`.
    pub fn boid_state(&self, idx: usize) -> (r: HealthState)
        requires
            self.wf(),
            idx < self@.pos_x.len(),
        ensures
            r == self@.state[idx as int],
    {
        self.state[idx]
    }
}

proof fn lemma_count_none(s: Seq<HealthState>, h: HealthState)
    requires
        forall|i: int| 0 <= i < s.len() ==> #[trigger] s[i] != h,
    ensures
        count_state(s, h) == 0,
    decreases s.len(),
{
    if s.len() > 0 {
        lemma_count_none(s.drop_last(), h);
    }
}

/// Setting entry `i` to `v` changes the count of `h` by at most one.
proof fn lemma_count_set(s: Seq<HealthState>, i: int, v: HealthState, h: HealthState)
    requires
        0 <= i < s.len(),
    ensures
        count_state(s.update(i, v), h) <= count_state(s, h) + 1,
        v != h ==> count_state(s.update(i, v), h) <= count_state(s, h),
    decreases s.len(),
{
    let t = s.update(i, v);
    if i == s.len() - 1 {
        assert(t.drop_last() == s.drop_last());
    } else {
        assert(t.drop_last() == s.drop_last().update(i, v));
        lemma_count_set(s.drop_last(), i, v, h);
    }
}

/// The grid's points when it holds every agent at its position, in index
/// order.
pub open spec fn agent_points(m: SimModel) -> Seq<(usize, i64, i64)> {
    Seq::new(m.pos_x.len(), |k: int| (k as usize, m.pos_x[k], m.pos_y[k]))
}

/// Running sums over one agent's neighbours.
pub struct NeighborSums {
    pub count: usize,
    pub align_x: i128,
    pub align_y: i128,
    pub coh_x: i128,
    pub coh_y: i128,
    pub sep_count: usize,
    pub sep_x: i128,
    pub sep_y: i128,
    pub infected_count: usize,
    pub nearest_d2: i64,
    pub near_x: i64,
    pub near_y: i64,
    pub contact: bool,
}

/// No neighbour seen yet.
pub open spec fn zero_sums() -> NeighborSums {
    NeighborSums {
        count: 0,
        align_x: 0,
        align_y: 0,
        coh_x: 0,
        coh_y: 0,
        sep_count: 0,
        sep_x: 0,
        sep_y: 0,
        infected_count: 0,
        nearest_d2: 0,
        near_x: 0,
        near_y: 0,
        contact: false,
    }
}

/// The sums after agent `j` is seen as a neighbour of agent `i`. Within
/// the neighbour radius it adds to the count, the velocity sum and the
/// offset sum; within the separation radius (and not at the same point) it
/// adds the unit vector away from it; if Infected it adds to the infected
/// count and becomes the nearest infected one when strictly nearer (and
/// not at the same point). An Infected agent within the infection radius
/// is a contact.
pub open spec fn accumulate_spec(m: SimModel, i: int, j: int, s: NeighborSums) -> NeighborSums {
    let ox = m.pos_x[j] - m.pos_x[i];
    let oy = m.pos_y[j] - m.pos_y[i];
    let d2 = ox * ox + oy * oy;
    let nr = m.cfg.neighbor_radius;
    let sr = m.cfg.separation_radius;
    let ir = m.cfg.infection_radius;
    let inf = m.state[j] == HealthState::Infected;
    let s1 = if d2 < nr * nr {
        let b1 = NeighborSums {
            count: (s.count + 1) as usize,
            align_x: (s.align_x + m.vel_x[j]) as i128,
            align_y: (s.align_y + m.vel_y[j]) as i128,
            coh_x: (s.coh_x + ox) as i128,
            coh_y: (s.coh_y + oy) as i128,
            ..s
        };
        let b2 = if d2 < sr * sr && d2 > 0 {
            let dist = crate::fixed::isqrt_spec(d2);
            NeighborSums {
                sep_x: (b1.sep_x - tdiv(ox * ONE, dist)) as i128,
                sep_y: (b1.sep_y - tdiv(oy * ONE, dist)) as i128,
                sep_count: (b1.sep_count + 1) as usize,
                ..b1
            }
        } else {
            b1
        };
        if inf {
            let b3 = NeighborSums { infected_count: (b2.infected_count + 1) as usize, ..b2 };
            if d2 > 0 && (b3.nearest_d2 == 0 || d2 < b3.nearest_d2) {
                NeighborSums { nearest_d2: d2 as i64, near_x: ox as i64, near_y: oy as i64, ..b3 }
            } else {
                b3
            }
        } else {
            b2
        }
    } else {
        s
    };
    if inf && d2 < ir * ir {
        NeighborSums { contact: true, ..s1 }
    } else {
        s1
    }
}

/// The sums over the first `t` entries of `nb`, skipping agent `i` itself.
pub open spec fn sums_over(m: SimModel, i: int, nb: Seq<usize>, t: nat) -> NeighborSums
    decreases t,
{
    if t == 0 {
        zero_sums()
    } else {
        let s = sums_over(m, i, nb, (t - 1) as nat);
        let j = nb[t - 1] as int;
        if j == i {
            s
        } else {
            accumulate_spec(m, i, j, s)
        }
    }
}

/// The agents the grid reports around agent `i`: the 3x3 block of cells
/// around its own, row by row, each cell in index order.
pub open spec fn neighbor_seq(m: SimModel, i: int) -> Seq<usize> {
    crate::grid::block_seq(agent_points(m), m.pos_x[i], m.pos_y[i], cell_size_for(m.cfg))
}

/// `v / d` in fixed point, rounded toward zero.
pub open spec fn ratio_spec(v: int, d: int) -> int {
    tdiv(v * ONE, d)
}

/// `min(v / d, 1)` in fixed point, for non-negative `v`.
pub open spec fn unit_ratio_spec(v: int, d: int) -> int {
    if v * ONE / d > ONE { ONE as int } else { v * ONE / d }
}

/// The fourteen features of agent `i` from the sums `s` over its
/// neighbours: its velocity over the largest speed (two) and its speed
/// ratio capped at 1; the mean neighbour velocity over the largest speed
/// (two) and the mean neighbour offset over the neighbour radius (two),
/// zero without neighbours; the mean separation push (two), zero without
/// close neighbours; the neighbour count over 20 capped at 1; the unit
/// direction to the nearest infected neighbour (two) and its distance over
/// the infection radius capped at 1, or zero, zero and 1 without one; and
/// the share of neighbours that are infected.
pub open spec fn features_spec(m: SimModel, i: int, s: NeighborSums) -> Seq<i64> {
    let ms = m.cfg.max_speed as int;
    let nr = m.cfg.neighbor_radius as int;
    let ir = m.cfg.infection_radius as int;
    let vx = m.vel_x[i] as int;
    let vy = m.vel_y[i] as int;
    let c = s.count as int;
    let sc = s.sep_count as int;
    let nd = crate::fixed::isqrt_spec(s.nearest_d2 as int);
    seq![
        ratio_spec(vx, ms) as i64,
        ratio_spec(vy, ms) as i64,
        unit_ratio_spec(crate::fixed::isqrt_spec(vx * vx + vy * vy), ms) as i64,
        (if c > 0 { ratio_spec(tdiv(s.align_x as int, c), ms) } else { 0 }) as i64,
        (if c > 0 { ratio_spec(tdiv(s.align_y as int, c), ms) } else { 0 }) as i64,
        (if c > 0 { ratio_spec(tdiv(s.coh_x as int, c), nr) } else { 0 }) as i64,
        (if c > 0 { ratio_spec(tdiv(s.coh_y as int, c), nr) } else { 0 }) as i64,
        (if sc > 0 { tdiv(s.sep_x as int, sc) } else { 0 }) as i64,
        (if sc > 0 { tdiv(s.sep_y as int, sc) } else { 0 }) as i64,
        (if c >= CROWD { ONE as int } else { c * ONE / CROWD as int }) as i64,
        (if s.nearest_d2 > 0 { tdiv(s.near_x * ONE, nd) } else { 0 }) as i64,
        (if s.nearest_d2 > 0 { tdiv(s.near_y * ONE, nd) } else { 0 }) as i64,
        (if s.nearest_d2 > 0 { unit_ratio_spec(nd, ir) } else { ONE as int }) as i64,
        (if c > 0 { s.infected_count * ONE / c } else { 0 }) as i64,
    ]
}

/// The feature vector of agent `i`.
pub open spec fn features_of(m: SimModel, i: int) -> Seq<i64> {
    let nb = neighbor_seq(m, i);
    features_spec(m, i, sums_over(m, i, nb, nb.len()))
}

/// The sums stay within what their counts allow.
pub open spec fn sums_ok(s: NeighborSums) -> bool {
    &&& s.infected_count <= s.count
    &&& -(s.count as int) * MAX_PARAM <= s.align_x <= (s.count as int) * MAX_PARAM
    &&& -(s.count as int) * MAX_PARAM <= s.align_y <= (s.count as int) * MAX_PARAM
    &&& -(s.count as int) * MAX_PARAM <= s.coh_x <= (s.count as int) * MAX_PARAM
    &&& -(s.count as int) * MAX_PARAM <= s.coh_y <= (s.count as int) * MAX_PARAM
    &&& -(s.sep_count as int) * ONE <= s.sep_x <= (s.sep_count as int) * ONE
    &&& -(s.sep_count as int) * ONE <= s.sep_y <= (s.sep_count as int) * ONE
    &&& 0 <= s.nearest_d2
    &&& s.nearest_d2 > 0 ==> {
        &&& -MAX_PARAM <= s.near_x <= MAX_PARAM
        &&& -MAX_PARAM <= s.near_y <= MAX_PARAM
        &&& s.near_x * s.near_x + s.near_y * s.near_y == s.nearest_d2
    }
}

proof fn lemma_offset_within(ox: int, oy: int, r: int)
    requires
        r > 0,
        ox * ox + oy * oy < r * r,
    ensures
        -r < ox < r,
        -r < oy < r,
{
    assert(ox * ox >= 0 && oy * oy >= 0) by (nonlinear_arith);
    if ox >= r {
        assert(ox * ox >= r * r) by (nonlinear_arith)
            requires ox >= r, r > 0;
    }
    if ox <= -r {
        assert(ox * ox >= r * r) by (nonlinear_arith)
            requires -ox >= r, r > 0;
    }
    if oy >= r {
        assert(oy * oy >= r * r) by (nonlinear_arith)
            requires oy >= r, r > 0;
    }
    if oy <= -r {
        assert(oy * oy >= r * r) by (nonlinear_arith)
            requires -oy >= r, r > 0;
    }
}

impl Simulation {
    /// Add neighbour `j` of agent `i` to the running sums.
    fn accumulate(&self, i: usize, j: usize, s: &mut NeighborSums)
        requires
            self.wf(),
            i < self@.pos_x.len(),
            j < self@.pos_x.len(),
            i != j,
            sums_ok(*old(s)),
            old(s).count < usize::MAX,
            old(s).sep_count < usize::MAX,
        ensures
            sums_ok(*final(s)),
            final(s).count <= old(s).count + 1,
            final(s).sep_count <= old(s).sep_count + 1,
            final(s).contact == (old(s).contact || infects(self@, i as int, j as int)),
            *final(s) == accumulate_spec(self@, i as int, j as int, *old(s)),
    {
        let ghost m = self@;
        assert(agent_cols_ok(m.pos_x, m.pos_y, m.vel_x, m.vel_y, m.state, m.infected_time, i as int) && agent_cols_ok(m.pos_x, m.pos_y, m.vel_x, m.vel_y, m.state, m.infected_time, j as int));
        let ox = self.pos_x[j] - self.pos_x[i];
        let oy = self.pos_y[j] - self.pos_y[i];
        assert(0 <= ox * ox <= 0x1000_0000_0000_0000) by (nonlinear_arith)
            requires -0x4000_0000 <= ox <= 0x4000_0000;
        assert(0 <= oy * oy <= 0x1000_0000_0000_0000) by (nonlinear_arith)
            requires -0x4000_0000 <= oy <= 0x4000_0000;
        let d2 = ox * ox + oy * oy;
        let nr = self.cfg.neighbor_radius;
        let sr = self.cfg.separation_radius;
        let ir = self.cfg.infection_radius;
        assert(nr * nr <= MAX_PARAM * MAX_PARAM) by (nonlinear_arith)
            requires 0 < nr <= MAX_PARAM;
        assert(sr * sr <= MAX_PARAM * MAX_PARAM) by (nonlinear_arith)
            requires 0 < sr <= MAX_PARAM;
        assert(ir * ir <= MAX_PARAM * MAX_PARAM) by (nonlinear_arith)
            requires 0 < ir <= MAX_PARAM;
        let infected_j = self.state[j] == HealthState::Infected;
        if d2 < nr * nr {
            proof { lemma_offset_within(ox as int, oy as int, nr as int); }
            let ghost c = s.count as int;
            assert(c * MAX_PARAM + MAX_PARAM == (c + 1) * MAX_PARAM) by (nonlinear_arith);
            s.align_x = s.align_x + self.vel_x[j] as i128;
            s.align_y = s.align_y + self.vel_y[j] as i128;
            s.coh_x = s.coh_x + ox as i128;
            s.coh_y = s.coh_y + oy as i128;
            s.count = s.count + 1;
            if d2 < sr * sr && d2 > 0 {
                let dist = isqrt(d2 as u64) as i64;
                proof {
                    crate::fixed::lemma_isqrt_is_spec(d2 as int, dist as int);
                    lemma_component_within_length(ox as int, oy as int, dist as int);
                }
                assert(dist > 0) by (nonlinear_arith)
                    requires is_isqrt(d2 as int, dist as int), d2 > 0;
                let ux = scale_ratio(ox, ONE, dist);
                let uy = scale_ratio(oy, ONE, dist);
                let ghost sc = s.sep_count as int;
                assert(sc * ONE + ONE == (sc + 1) * ONE) by (nonlinear_arith);
                s.sep_x = s.sep_x - ux as i128;
                s.sep_y = s.sep_y - uy as i128;
                s.sep_count = s.sep_count + 1;
            }
            if infected_j {
                s.infected_count = s.infected_count + 1;
                if d2 > 0 && (s.nearest_d2 == 0 || d2 < s.nearest_d2) {
                    s.nearest_d2 = d2;
                    s.near_x = ox;
                    s.near_y = oy;
                }
            }
        }
        if infected_j && d2 < ir * ir {
            s.contact = true;
        }
    }

    /// The fourteen features of agent `i` from the sums over its neighbours.
    fn feature_vector(&self, i: usize, s: &NeighborSums) -> (r: Vec<i64>)
        requires
            self.wf(),
            i < self@.pos_x.len(),
            sums_ok(*s),
        ensures
            r.len() == FEATURE_SIZE,
            forall|k: int| 0 <= k < r.len() ==> -INPUT_LIMIT <= #[trigger] r@[k] <= INPUT_LIMIT,
            r@ == features_spec(self@, i as int, *s),
    {
        let ghost m = self@;
        let ms = self.cfg.max_speed;
        let nr = self.cfg.neighbor_radius;
        let ir = self.cfg.infection_radius;
        assert(agent_cols_ok(m.pos_x, m.pos_y, m.vel_x, m.vel_y, m.state, m.infected_time, i as int));
        assert(-MAX_PARAM <= m.vel_x[i as int] <= MAX_PARAM && -MAX_PARAM <= m.vel_y[i as int] <= MAX_PARAM);
        let vx = self.vel_x[i];
        let vy = self.vel_y[i];
        let mut r: Vec<i64> = Vec::new();
        // velocity relative to the largest speed
        r.push(ratio_of(vx, ms));
        r.push(ratio_of(vy, ms));
        assert(0 <= vx * vx <= MAX_PARAM * MAX_PARAM) by (nonlinear_arith)
            requires -MAX_PARAM <= vx <= MAX_PARAM;
        assert(0 <= vy * vy <= MAX_PARAM * MAX_PARAM) by (nonlinear_arith)
            requires -MAX_PARAM <= vy <= MAX_PARAM;
        let speed = isqrt((vx * vx + vy * vy) as u64) as i64;
        proof { crate::fixed::lemma_isqrt_is_spec(vx * vx + vy * vy, speed as int); }
        r.push(unit_ratio(speed, ms));
        // mean neighbour velocity, and neighbour centroid relative to self
        if s.count > 0 {
            let c = s.count as i128;
            proof {
                lemma_tdiv_bound(s.align_x as int, c as int, MAX_PARAM as int);
                lemma_tdiv_bound(s.align_y as int, c as int, MAX_PARAM as int);
                lemma_tdiv_bound(s.coh_x as int, c as int, MAX_PARAM as int);
                lemma_tdiv_bound(s.coh_y as int, c as int, MAX_PARAM as int);
            }
            r.push(ratio_of(div_i128(s.align_x, c) as i64, ms));
            r.push(ratio_of(div_i128(s.align_y, c) as i64, ms));
            r.push(ratio_of(div_i128(s.coh_x, c) as i64, nr));
            r.push(ratio_of(div_i128(s.coh_y, c) as i64, nr));
        } else {
            r.push(0);
            r.push(0);
            r.push(0);
            r.push(0);
        }
        // mean separation push
        if s.sep_count > 0 {
            let c = s.sep_count as i128;
            proof {
                lemma_tdiv_bound(s.sep_x as int, c as int, ONE as int);
                lemma_tdiv_bound(s.sep_y as int, c as int, ONE as int);
            }
            r.push(div_i128(s.sep_x, c) as i64);
            r.push(div_i128(s.sep_y, c) as i64);
        } else {
            r.push(0);
            r.push(0);
        }
        // neighbour density
        r.push(if s.count >= CROWD { ONE } else { (s.count as i64) * ONE / (CROWD as i64) });
        // nearest infected neighbour: direction and distance
        if s.nearest_d2 > 0 {
            assert(s.near_x * s.near_x <= MAX_PARAM * MAX_PARAM) by (nonlinear_arith)
                requires -MAX_PARAM <= s.near_x <= MAX_PARAM;
            assert(s.near_y * s.near_y <= MAX_PARAM * MAX_PARAM) by (nonlinear_arith)
                requires -MAX_PARAM <= s.near_y <= MAX_PARAM;
            let nd = isqrt(s.nearest_d2 as u64) as i64;
            proof {
                crate::fixed::lemma_isqrt_is_spec(s.nearest_d2 as int, nd as int);
                lemma_component_within_length(s.near_x as int, s.near_y as int, nd as int);
            }
            assert(nd > 0) by (nonlinear_arith)
                requires is_isqrt(s.nearest_d2 as int, nd as int), s.nearest_d2 > 0;
            r.push(scale_ratio(s.near_x, ONE, nd));
            r.push(scale_ratio(s.near_y, ONE, nd));
            r.push(unit_ratio(nd, ir));
        } else {
            r.push(0);
            r.push(0);
            r.push(ONE);
        }
        // share of neighbours that are infected
        if s.count > 0 {
            assert((s.infected_count as int) * ONE / (s.count as int) <= ONE) by (nonlinear_arith)
                requires s.infected_count <= s.count, s.count > 0;
            assert(0 <= (s.infected_count as int) * ONE / (s.count as int)) by (nonlinear_arith)
                requires s.count > 0;
            r.push(((s.infected_count as u128) * (ONE as u128) / (s.count as u128)) as i64);
        } else {
            r.push(0);
        }
        assert(r@ =~= features_spec(m, i as int, *s));
        r
    }
}

/// `v / d` in fixed point, for a value and a divisor of at most
/// `MAX_PARAM`, the divisor at least 1.0.
fn ratio_of(v: i64, d: i64) -> (r: i64)
    requires
        -MAX_PARAM <= v <= MAX_PARAM,
        ONE <= d <= MAX_PARAM,
    ensures
        r == tdiv(v * ONE, d as int),
        -MAX_PARAM <= r <= MAX_PARAM,
{
    assert(-MAX_PARAM * d <= v * ONE <= MAX_PARAM * d) by (nonlinear_arith)
        requires -MAX_PARAM <= v <= MAX_PARAM, ONE <= d;
    proof { lemma_tdiv_bound(v * ONE, d as int, MAX_PARAM as int); }
    div_i64(v * ONE, d)
}

/// `min(v / d, 1)` in fixed point, for `0 <= v` and a divisor of at least
/// 1.0.
fn unit_ratio(v: i64, d: i64) -> (r: i64)
    requires
        0 <= v <= 0x8000_0000,
        ONE <= d <= MAX_PARAM,
    ensures
        0 <= r <= ONE,
        r == unit_ratio_spec(v as int, d as int),
{
    let q = v * ONE / d;
    if q > ONE { ONE } else { q }
}

impl Simulation {
    /// Empty the grid and insert every agent at its position, in index order.
    fn rebuild_grid(&mut self)
        requires
            old(self).wf(),
        ensures
            final(self).wf(),
            final(self)@ == old(self)@,
            final(self).grid@ == agent_points(final(self)@),
    {
        self.grid.clear();
        let n = self.pos_x.len();
        let mut k: usize = 0;
        while k < n
            invariant
                k <= n,
                n == self.pos_x.len(),
                self.wf(),
                self@ == old(self)@,
                self.grid@ == agent_points(self@).subrange(0, k as int),
            decreases n - k,
        {
            assert(agent_cols_ok(self@.pos_x, self@.pos_y, self@.vel_x, self@.vel_y, self@.state, self@.infected_time, k as int));
            self.grid.insert(k, self.pos_x[k], self.pos_y[k]);
            assert(agent_points(self@).subrange(0, k + 1) == agent_points(self@).subrange(0, k as int).push(
                (k, self@.pos_x[k as int], self@.pos_y[k as int]),
            ));
            k = k + 1;
        }
        assert(agent_points(self@).subrange(0, n as int) == agent_points(self@));
    }

    /// The feature vector of agent `i`, and whether it has an infected
    /// contact: an Infected agent other than itself strictly within the
    /// infection radius.
    fn features_for(&self, i: usize) -> (r: (Vec<i64>, bool))
        requires
            self.wf(),
            i < self@.pos_x.len(),
            self.grid@ == agent_points(self@),
        ensures
            r.0.len() == FEATURE_SIZE,
            forall|k: int| 0 <= k < r.0.len() ==> -INPUT_LIMIT <= #[trigger] r.0@[k] <= INPUT_LIMIT,
            r.1 == has_infected_contact(self@, i as int),
            r.0@ == features_of(self@, i as int),
    {
        let ghost m = self@;
        let n = self.pos_x.len();
        assert(agent_cols_ok(m.pos_x, m.pos_y, m.vel_x, m.vel_y, m.state, m.infected_time, i as int));
        let px = self.pos_x[i];
        let py = self.pos_y[i];
        let nb = self.grid.neighbors(px, py);
        let ghost cs = self.grid.cell_size_spec();
        let mut s = NeighborSums {
            count: 0,
            align_x: 0,
            align_y: 0,
            coh_x: 0,
            coh_y: 0,
            sep_count: 0,
            sep_x: 0,
            sep_y: 0,
            infected_count: 0,
            nearest_d2: 0,
            near_x: 0,
            near_y: 0,
            contact: false,
        };
        let mut t: usize = 0;
        while t < nb.len()
            invariant
                self.wf(),
                m == self@,
                n == m.pos_x.len(),
                i < n,
                px == m.pos_x[i as int],
                py == m.pos_y[i as int],
                self.grid@ == agent_points(m),
                cs == self.grid.cell_size_spec(),
                forall|u: int| 0 <= u < nb@.len() ==> found_in_block(self.grid@, #[trigger] nb@[u], px, py, cs),
                t <= nb.len(),
                sums_ok(s),
                s.count <= t,
                s.sep_count <= t,
                s.contact == exists|u: int| 0 <= u < t && #[trigger] infects(m, i as int, nb@[u] as int),
                s == sums_over(m, i as int, nb@, t as nat),
                nb@ == neighbor_seq(m, i as int),
            decreases nb.len() - t,
        {
            let j = nb[t];
            proof {
                assert(found_in_block(self.grid@, nb@[t as int], px, py, cs));
                let jj = choose|jj: int|
                    0 <= jj < self.grid@.len() && #[trigger] self.grid@[jj].0 == j && in_block(
                        self.grid@[jj].1,
                        self.grid@[jj].2,
                        px,
                        py,
                        cs,
                    );
                assert(self.grid@[jj].0 == jj as usize);
            }
            let ghost before = s.contact;
            if j != i {
                self.accumulate(i, j, &mut s);
            }
            proof {
                if s.contact {
                    if before {
                        let u = choose|u: int| 0 <= u < t && #[trigger] infects(m, i as int, nb@[u] as int);
                        assert(0 <= u < t + 1 && infects(m, i as int, nb@[u] as int));
                    } else {
                        assert(infects(m, i as int, nb@[t as int] as int));
                    }
                } else {
                    assert forall|u: int| 0 <= u < t + 1 implies !#[trigger] infects(m, i as int, nb@[u] as int) by {
                        if u < t {
                        }
                    }
                }
            }
            t = t + 1;
        }
        proof {
            if has_infected_contact(m, i as int) {
                let j = choose|j: int| infects(m, i as int, j);
                lemma_grid_matches_brute_force(&self.grid, px, py, m.cfg.infection_radius);
                assert(self.grid@[j].1 == m.pos_x[j] && self.grid@[j].2 == m.pos_y[j]);
                assert(nb@.contains(self.grid@[j].0));
                let u = choose|u: int| 0 <= u < nb@.len() && nb@[u] == self.grid@[j].0;
                assert(nb@[u] as int == j);
                assert(infects(m, i as int, nb@[u] as int));
            } else {
                assert forall|u: int| 0 <= u < nb@.len() implies !#[trigger] infects(m, i as int, nb@[u] as int) by {
                    if infects(m, i as int, nb@[u] as int) {
                        assert(has_infected_contact(m, i as int));
                    }
                }
            }
        }
        let f = self.feature_vector(i, &s);
        (f, s.contact)
    }
}

proof fn lemma_square_bound(v: int, m: int)
    requires
        m > 0,
        v * v <= m * m,
    ensures
        -m <= v <= m,
{
    if v > m {
        assert(v * v > m * m) by (nonlinear_arith)
            requires v > m, m > 0;
    }
    if v < -m {
        assert(v * v > m * m) by (nonlinear_arith)
            requires -v > m, m > 0;
    }
}

/// A steering output scaled by the largest force `mf`, its length then
/// limited to `mf`.
pub open spec fn steering_spec(out: Vec2f, mf: int) -> Vec2f {
    crate::fixed::limit_spec(
        Vec2f { x: tdiv(out.x * mf, ONE as int) as i64, y: tdiv(out.y * mf, ONE as int) as i64 },
        mf,
    )
}

/// The acceleration of agent `i`: its state's policy on its features,
/// scaled and limited by the largest force.
pub open spec fn accel_spec(m: SimModel, i: int) -> Vec2f {
    steering_spec(m.policies[state_slot(m.state[i])].forward(features_of(m, i)), m.cfg.max_force as int)
}

/// The read pass over the first `k` agents from generator state
/// `m.rng_state`: each agent's acceleration, whether it is infected this
/// step, and the generator state after. Exactly the Susceptible agents
/// with an infected contact draw once; the draw infects when it is below
/// the step's probability `p`.
pub open spec fn decide_fold(m: SimModel, p: int, k: nat) -> (Seq<Vec2f>, Seq<bool>, u32)
    decreases k,
{
    if k == 0 {
        (Seq::empty(), Seq::empty(), m.rng_state)
    } else {
        let prev = decide_fold(m, p, (k - 1) as nat);
        let i = k - 1;
        let a = accel_spec(m, i);
        if m.state[i] == HealthState::Susceptible && has_infected_contact(m, i) {
            let s2 = lcg_next(prev.2);
            (prev.0.push(a), prev.1.push((unit_of(s2) as int) < p), s2)
        } else {
            (prev.0.push(a), prev.1.push(false), prev.2)
        }
    }
}

proof fn lemma_decide_fold_next(m: SimModel, p: int, i: nat)
    ensures
        ({
            let prev = decide_fold(m, p, i);
            let next = decide_fold(m, p, i + 1);
            let draws = m.state[i as int] == HealthState::Susceptible && has_infected_contact(m, i as int);
            &&& next.0 == prev.0.push(accel_spec(m, i as int))
            &&& draws ==> next.1 == prev.1.push((unit_of(lcg_next(prev.2)) as int) < p) && next.2 == lcg_next(prev.2)
            &&& !draws ==> next.1 == prev.1.push(false) && next.2 == prev.2
            &&& next.0.len() == prev.0.len() + 1
        }),
{
}

/// A steering output scaled by the largest force, its length then limited
/// to that force.
fn steering_accel(out: Vec2f, mf: i64) -> (r: Vec2f)
    requires
        -ONE <= out.x <= ONE,
        -ONE <= out.y <= ONE,
        ONE <= mf <= MAX_PARAM,
    ensures
        -mf <= r.x <= mf,
        -mf <= r.y <= mf,
        r == steering_spec(out, mf as int),
{
    assert(-mf * ONE <= out.x * mf <= mf * ONE) by (nonlinear_arith)
        requires -ONE <= out.x <= ONE, 0 < mf;
    assert(-mf * ONE <= out.y * mf <= mf * ONE) by (nonlinear_arith)
        requires -ONE <= out.y <= ONE, 0 < mf;
    proof {
        lemma_tdiv_bound(out.x * mf, ONE as int, mf as int);
        lemma_tdiv_bound(out.y * mf, ONE as int, mf as int);
    }
    let a = Vec2f { x: div_i64(out.x * mf, ONE), y: div_i64(out.y * mf, ONE) };
    a.limit(mf)
}

/// Velocity `(vx, vy)` after acceleration `(ax, ay)` over `dt`: the sum,
/// scaled down to the largest speed `ms` when its length exceeds it (by
/// `ms` over the rounded-down length).
pub open spec fn velocity_after(vx: int, vy: int, ax: int, ay: int, dt: int, ms: int) -> (int, int) {
    let nx = vx + tdiv(ax * dt, ONE as int);
    let ny = vy + tdiv(ay * dt, ONE as int);
    let s2 = nx * nx + ny * ny;
    if s2 > ms * ms {
        let sp = crate::fixed::isqrt_spec(s2);
        (tdiv(nx * ms, sp), tdiv(ny * ms, sp))
    } else {
        (nx, ny)
    }
}

/// A velocity after an acceleration over `dt`, its length then limited to
/// the largest speed.
fn accelerated_velocity(vx: i64, vy: i64, ax: i64, ay: i64, dt: i64, ms: i64) -> (r: (i64, i64))
    requires
        -MAX_PARAM <= vx <= MAX_PARAM,
        -MAX_PARAM <= vy <= MAX_PARAM,
        -MAX_PARAM <= ax <= MAX_PARAM,
        -MAX_PARAM <= ay <= MAX_PARAM,
        0 <= dt <= MAX_DT,
        ONE <= ms <= MAX_PARAM,
    ensures
        -ms <= r.0 <= ms,
        -ms <= r.1 <= ms,
        (r.0 as int, r.1 as int) == velocity_after(vx as int, vy as int, ax as int, ay as int, dt as int, ms as int),
{
    assert(-MAX_PARAM * MAX_DT <= ax * dt <= MAX_PARAM * MAX_DT) by (nonlinear_arith)
        requires -MAX_PARAM <= ax <= MAX_PARAM, 0 <= dt <= MAX_DT;
    assert(-MAX_PARAM * MAX_DT <= ay * dt <= MAX_PARAM * MAX_DT) by (nonlinear_arith)
        requires -MAX_PARAM <= ay <= MAX_PARAM, 0 <= dt <= MAX_DT;
    proof {
        lemma_tdiv_bound(ax * dt, ONE as int, 4 * MAX_PARAM as int);
        lemma_tdiv_bound(ay * dt, ONE as int, 4 * MAX_PARAM as int);
    }
    let nx = vx + div_i64(ax * dt, ONE);
    let ny = vy + div_i64(ay * dt, ONE);
    assert(0 <= nx * nx <= 25 * MAX_PARAM * MAX_PARAM) by (nonlinear_arith)
        requires -5 * MAX_PARAM <= nx <= 5 * MAX_PARAM;
    assert(0 <= ny * ny <= 25 * MAX_PARAM * MAX_PARAM) by (nonlinear_arith)
        requires -5 * MAX_PARAM <= ny <= 5 * MAX_PARAM;
    let s2 = nx * nx + ny * ny;
    assert(ms * ms <= MAX_PARAM * MAX_PARAM) by (nonlinear_arith)
        requires 0 < ms <= MAX_PARAM;
    if s2 > ms * ms {
        let sp = isqrt(s2 as u64) as i64;
        proof {
            crate::fixed::lemma_isqrt_is_spec(s2 as int, sp as int);
            lemma_component_within_length(nx as int, ny as int, sp as int);
            assert(sp >= ms) by (nonlinear_arith)
                requires is_isqrt(s2 as int, sp as int), s2 > ms * ms, ms > 0;
        }
        (scale_ratio(nx, ms, sp), scale_ratio(ny, ms, sp))
    } else {
        proof {
            assert(nx * nx <= ms * ms && ny * ny <= ms * ms) by (nonlinear_arith)
                requires nx * nx + ny * ny <= ms * ms, nx * nx >= 0, ny * ny >= 0;
            lemma_square_bound(nx as int, ms as int);
            lemma_square_bound(ny as int, ms as int);
        }
        (nx, ny)
    }
}

/// The state and timer of one agent after a step, as `advance_health`.
fn advance_one(s: HealthState, t: i64, infect: bool, dt: i64, period: i64) -> (r: (HealthState, i64))
    requires
        0 <= t <= MAX_PERIOD + MAX_DT,
        s == HealthState::Infected ==> t <= MAX_PERIOD,
        0 <= dt <= MAX_DT,
        MIN_PERIOD <= period <= MAX_PERIOD,
    ensures
        r == advance_health(s, t, infect, dt, period),
        0 <= r.1 <= MAX_PERIOD + MAX_DT,
        r.0 == HealthState::Infected ==> r.1 <= MAX_PERIOD,
{
    let (s1, t1) = if infect { (HealthState::Infected, 0i64) } else { (s, t) };
    if s1 == HealthState::Infected {
        let t2 = t1 + dt;
        if t2 >= period { (HealthState::Recovered, t2) } else { (HealthState::Infected, t2) }
    } else {
        (s1, t1)
    }
}

impl Simulation {
    /// One agent's acceleration and infection draw.
    fn decide_one(&self, i: usize, p: i64, hidden: &mut Vec<i64>, rng: &mut Lcg) -> (r: (Vec2f, bool))
        requires
            self.wf(),
            self.grid@ == agent_points(self@),
            i < self@.pos_x.len(),
            old(hidden).len() == HIDDEN_SIZE,
        ensures
            final(hidden).len() == HIDDEN_SIZE,
            -self@.cfg.max_force <= r.0.x <= self@.cfg.max_force,
            -self@.cfg.max_force <= r.0.y <= self@.cfg.max_force,
            r.1 ==> self@.state[i as int] == HealthState::Susceptible && has_infected_contact(self@, i as int)
                && p > 0,
            r.0 == accel_spec(self@, i as int),
            self@.state[i as int] == HealthState::Susceptible && has_infected_contact(self@, i as int) ==> {
                &&& final(rng).state == lcg_next(old(rng).state)
                &&& r.1 == ((unit_of(final(rng).state) as int) < p)
            },
            !(self@.state[i as int] == HealthState::Susceptible && has_infected_contact(self@, i as int)) ==> {
                &&& final(rng).state == old(rng).state
                &&& !r.1
            },
    {
        let (f, contact) = self.features_for(i);
        let st = self.state[i];
        let slot = st.idx();
        proof { assert(policy_fits(self.policies@[slot as int]@)); }
        let out = self.policies[slot].forward_into(&f, hidden);
        proof { assert(self@.policies[slot as int] == self.policies@[slot as int]@); }
        let a = steering_accel(out, self.cfg.max_force);
        let mut inf = false;
        if st == HealthState::Susceptible && contact {
            let u = rng.next_unit();
            inf = (u as i64) < p;
        }
        (a, inf)
    }

    /// The read pass of a step: every agent's acceleration from its policy,
    /// and whether it is infected this step. Only the generator moves.
    fn decide(&mut self, dt: i64) -> (r: (Vec<i64>, Vec<i64>, Vec<bool>))
        requires
            old(self).wf(),
            old(self).grid@ == agent_points(old(self)@),
            0 <= dt <= MAX_DT,
        ensures
            final(self).wf(),
            final(self)@ == (SimModel { rng_state: final(self)@.rng_state, ..old(self)@ }),
            r.0.len() == old(self)@.pos_x.len(),
            r.1.len() == old(self)@.pos_x.len(),
            r.2.len() == old(self)@.pos_x.len(),
            forall|k: int|
                0 <= k < r.0.len() ==> -old(self)@.cfg.max_force <= #[trigger] r.0@[k] <= old(self)@.cfg.max_force
                    && -old(self)@.cfg.max_force <= r.1@[k] <= old(self)@.cfg.max_force,
            forall|k: int|
                0 <= k < r.2.len() && #[trigger] r.2@[k] ==> old(self)@.state[k] == HealthState::Susceptible
                    && has_infected_contact(old(self)@, k)
                    && chance_of_rate_spec(old(self)@.cfg.infection_beta * dt / ONE as int) > 0,
            ({
                let d = decide_fold(
                    old(self)@,
                    chance_of_rate_spec(old(self)@.cfg.infection_beta * dt / ONE as int),
                    old(self)@.pos_x.len(),
                );
                &&& final(self)@.rng_state == d.2
                &&& r.2@ == d.1
                &&& forall|k: int| 0 <= k < r.0.len() ==> #[trigger] r.0@[k] == d.0[k].x && r.1@[k] == d.0[k].y
            }),
    {
        let ghost m0 = self@;
        let n = self.pos_x.len();
        let p = chance_of_rate(self.cfg.infection_beta, dt);
        let mf = self.cfg.max_force;
        let mut hidden: Vec<i64> = vec![0i64; HIDDEN_SIZE];
        let mut ax: Vec<i64> = Vec::new();
        let mut ay: Vec<i64> = Vec::new();
        let mut infect: Vec<bool> = Vec::new();
        let mut rng = Lcg::new(self.rng.state);
        let mut i: usize = 0;
        while i < n
            invariant
                i <= n,
                n == m0.pos_x.len(),
                self.wf(),
                self.grid@ == agent_points(self@),
                self@ == m0,
                mf == m0.cfg.max_force,
                p == chance_of_rate_spec(m0.cfg.infection_beta * dt / ONE as int),
                hidden.len() == HIDDEN_SIZE,
                ax.len() == i,
                ay.len() == i,
                infect.len() == i,
                forall|k: int| 0 <= k < i ==> -mf <= #[trigger] ax@[k] <= mf && -mf <= ay@[k] <= mf,
                forall|k: int|
                    0 <= k < i && #[trigger] infect@[k] ==> m0.state[k] == HealthState::Susceptible
                        && has_infected_contact(m0, k) && p > 0,
                rng.state == decide_fold(m0, p as int, i as nat).2,
                infect@ == decide_fold(m0, p as int, i as nat).1,
                decide_fold(m0, p as int, i as nat).0.len() == i,
                forall|k: int|
                    0 <= k < i ==> #[trigger] ax@[k] == decide_fold(m0, p as int, i as nat).0[k].x && ay@[k]
                        == decide_fold(m0, p as int, i as nat).0[k].y,
            decreases n - i,
        {
            let ghost prev = decide_fold(m0, p as int, i as nat);
            let ghost before_ax = ax@;
            let ghost before_ay = ay@;
            let (a, inf) = self.decide_one(i, p, &mut hidden, &mut rng);
            ax.push(a.x);
            ay.push(a.y);
            infect.push(inf);
            proof {
                lemma_decide_fold_next(m0, p as int, i as nat);
                let next = decide_fold(m0, p as int, (i + 1) as nat);
                assert(infect@ =~= next.1);
                assert(ax@[i as int] == a.x && ay@[i as int] == a.y);
                assert(next.0[i as int] == a);
                assert forall|k: int| 0 <= k < i + 1 implies #[trigger] ax@[k] == next.0[k].x && ay@[k] == next.0[k].y by {
                    if k < i {
                        assert(next.0[k] == prev.0[k]);
                    }
                }
                assert forall|k: int| 0 <= k < i + 1 implies -mf <= #[trigger] ax@[k] <= mf && -mf <= ay@[k] <= mf by {
                    if k < i {
                        assert(ax@[k] == before_ax[k] && ay@[k] == before_ay[k]);
                    }
                }
            }
            i = i + 1;
        }
        self.rng = rng;
        proof {
            assert(self.policies@ == old(self).policies@);
            assert(agents_ok(self@));
        }
        (ax, ay, infect)
    }

    /// Integrate every agent: velocity plus acceleration times `dt`, its
    /// length limited to the largest speed; position plus velocity times
    /// `dt`, wrapped into the world.
    fn integrate(&mut self, ax: &Vec<i64>, ay: &Vec<i64>, dt: i64)
        requires
            old(self).wf(),
            ax.len() == old(self)@.pos_x.len(),
            ay.len() == old(self)@.pos_x.len(),
            forall|k: int|
                0 <= k < ax.len() ==> -old(self)@.cfg.max_force <= #[trigger] ax@[k] <= old(self)@.cfg.max_force
                    && -old(self)@.cfg.max_force <= ay@[k] <= old(self)@.cfg.max_force,
            0 <= dt <= MAX_DT,
        ensures
            final(self).wf(),
            final(self)@ == (SimModel {
                pos_x: final(self)@.pos_x,
                pos_y: final(self)@.pos_y,
                vel_x: final(self)@.vel_x,
                vel_y: final(self)@.vel_y,
                ..old(self)@
            }),
            final(self)@.pos_x.len() == old(self)@.pos_x.len(),
            forall|k: int| 0 <= k < old(self)@.pos_x.len() ==> moved(old(self)@, final(self)@, k, dt),
            forall|k: int|
                0 <= k < old(self)@.pos_x.len() ==> #[trigger] integrated(old(self)@, final(self)@, ax@[k] as int, ay@[k] as int, k, dt),
    {
        let ghost m0 = self@;
        let n = self.pos_x.len();
        let ms = self.cfg.max_speed;
        let wx = self.cfg.world_size.x;
        let wy = self.cfg.world_size.y;
        let mut i: usize = 0;
        while i < n
            invariant
                i <= n,
                n == m0.pos_x.len(),
                ax.len() == n,
                ay.len() == n,
                forall|k: int|
                    0 <= k < n ==> -m0.cfg.max_force <= #[trigger] ax@[k] <= m0.cfg.max_force
                        && -m0.cfg.max_force <= ay@[k] <= m0.cfg.max_force,
                0 <= dt <= MAX_DT,
                self.wf(),
                ms == m0.cfg.max_speed,
                wx == m0.cfg.world_size.x,
                wy == m0.cfg.world_size.y,
                m0.pos_y.len() == n,
                m0.vel_x.len() == n,
                m0.vel_y.len() == n,
                self@ == (SimModel {
                    pos_x: self@.pos_x,
                    pos_y: self@.pos_y,
                    vel_x: self@.vel_x,
                    vel_y: self@.vel_y,
                    ..m0
                }),
                self@.pos_x.len() == n,
                forall|k: int| 0 <= k < i ==> moved(m0, self@, k, dt),
                forall|k: int| 0 <= k < i ==> #[trigger] integrated(m0, self@, ax@[k] as int, ay@[k] as int, k, dt),
                forall|k: int|
                    i <= k < n ==> #[trigger] self@.pos_x[k] == m0.pos_x[k] && self@.pos_y[k] == m0.pos_y[k]
                        && self@.vel_x[k] == m0.vel_x[k] && self@.vel_y[k] == m0.vel_y[k],
            decreases n - i,
        {
            assert(agent_cols_ok(self@.pos_x, self@.pos_y, self@.vel_x, self@.vel_y, self@.state, self@.infected_time, i as int));
            let (vx, vy) = accelerated_velocity(self.vel_x[i], self.vel_y[i], ax[i], ay[i], dt, ms);
            assert(-MAX_PARAM * MAX_DT <= vx * dt <= MAX_PARAM * MAX_DT) by (nonlinear_arith)
                requires -MAX_PARAM <= vx <= MAX_PARAM, 0 <= dt <= MAX_DT;
            assert(-MAX_PARAM * MAX_DT <= vy * dt <= MAX_PARAM * MAX_DT) by (nonlinear_arith)
                requires -MAX_PARAM <= vy <= MAX_PARAM, 0 <= dt <= MAX_DT;
            proof {
                lemma_tdiv_bound(vx * dt, ONE as int, 4 * MAX_PARAM as int);
                lemma_tdiv_bound(vy * dt, ONE as int, 4 * MAX_PARAM as int);
            }
            let px = wrap_coord(self.pos_x[i] + div_i64(vx * dt, ONE), wx);
            let py = wrap_coord(self.pos_y[i] + div_i64(vy * dt, ONE), wy);
            let ghost before = self@;
            self.vel_x.set(i, vx);
            self.vel_y.set(i, vy);
            self.pos_x.set(i, px);
            self.pos_y.set(i, py);
            proof {
                assert((self@.vel_x[i as int] as int, self@.vel_y[i as int] as int) == velocity_after(
                    m0.vel_x[i as int] as int, m0.vel_y[i as int] as int, ax@[i as int] as int, ay@[i as int] as int,
                    dt as int, m0.cfg.max_speed as int));
                assert forall|k: int| i + 1 <= k < n implies #[trigger] self@.pos_x[k] == m0.pos_x[k]
                    && self@.pos_y[k] == m0.pos_y[k] && self@.vel_x[k] == m0.vel_x[k]
                    && self@.vel_y[k] == m0.vel_y[k] by {
                    assert(before.pos_x[k] == m0.pos_x[k]);
                    assert(before.pos_y[k] == m0.pos_y[k] && before.vel_x[k] == m0.vel_x[k] && before.vel_y[k] == m0.vel_y[k]);
                    assert(self@.pos_x[k] == before.pos_x[k] && self@.pos_y[k] == before.pos_y[k]);
                    assert(self@.vel_x[k] == before.vel_x[k] && self@.vel_y[k] == before.vel_y[k]);
                }
                assert(moved(m0, self@, i as int, dt));
                assert forall|k: int| 0 <= k < i + 1 implies moved(m0, self@, k, dt) by {
                    if k < i {
                        assert(moved(m0, before, k, dt));
                    }
                }
                assert(integrated(m0, self@, ax@[i as int] as int, ay@[i as int] as int, i as int, dt));
                assert forall|k: int| 0 <= k < i + 1 implies #[trigger] integrated(m0, self@, ax@[k] as int, ay@[k] as int, k, dt) by {
                    if k < i {
                        assert(integrated(m0, before, ax@[k] as int, ay@[k] as int, k, dt));
                    }
                }
                assert forall|k: int| 0 <= k < n implies #[trigger] agent_cols_ok(self@.pos_x, self@.pos_y, self@.vel_x, self@.vel_y, self@.state, self@.infected_time, k) by {
                    assert(agent_cols_ok(before.pos_x, before.pos_y, before.vel_x, before.vel_y, before.state, before.infected_time, k));
                }
            }
            i = i + 1;
        }
    }

    /// Apply the step's infections, then advance every Infected agent's
    /// timer and recover those whose timer reached the infectious period.
    fn advance_all(&mut self, infect: &Vec<bool>, dt: i64)
        requires
            old(self).wf(),
            infect.len() == old(self)@.pos_x.len(),
            0 <= dt <= MAX_DT,
        ensures
            final(self).wf(),
            final(self)@ == (SimModel {
                state: final(self)@.state,
                infected_time: final(self)@.infected_time,
                ..old(self)@
            }),
            final(self)@.state.len() == old(self)@.state.len(),
            forall|k: int|
                0 <= k < old(self)@.state.len() ==> (#[trigger] final(self)@.state[k], final(self)@.infected_time[k])
                    == advance_health(
                    old(self)@.state[k],
                    old(self)@.infected_time[k],
                    infect@[k],
                    dt,
                    old(self)@.cfg.infectious_period,
                ),
    {
        let ghost m0 = self@;
        let n = self.pos_x.len();
        let period = self.cfg.infectious_period;
        let mut i: usize = 0;
        while i < n
            invariant
                i <= n,
                n == m0.pos_x.len(),
                infect.len() == n,
                0 <= dt <= MAX_DT,
                self.wf(),
                period == m0.cfg.infectious_period,
                m0.state.len() == n,
                m0.infected_time.len() == n,
                self@ == (SimModel { state: self@.state, infected_time: self@.infected_time, ..m0 }),
                self@.state.len() == n,
                forall|k: int|
                    0 <= k < i ==> (#[trigger] self@.state[k], self@.infected_time[k]) == advance_health(
                        m0.state[k],
                        m0.infected_time[k],
                        infect@[k],
                        dt,
                        period,
                    ),
                forall|k: int|
                    i <= k < n ==> #[trigger] self@.state[k] == m0.state[k] && self@.infected_time[k]
                        == m0.infected_time[k],
            decreases n - i,
        {
            assert(agent_cols_ok(self@.pos_x, self@.pos_y, self@.vel_x, self@.vel_y, self@.state, self@.infected_time, i as int));
            assert(self@.state[i as int] == m0.state[i as int]);
            let (s2, t2) = advance_one(self.state[i], self.infected_time[i], infect[i], dt, period);
            let ghost before = self@;
            let ghost before_policies = self.policies@;
            self.state.set(i, s2);
            self.infected_time.set(i, t2);
            proof {
                let m = self@;
                assert forall|k: int| 0 <= k < m.pos_x.len() implies #[trigger] agent_cols_ok(m.pos_x, m.pos_y, m.vel_x, m.vel_y, m.state, m.infected_time, k) by {
                    assert(agent_cols_ok(before.pos_x, before.pos_y, before.vel_x, before.vel_y, before.state, before.infected_time, k));
                    if k != i {
                        assert(m.state[k] == before.state[k]);
                        assert(m.infected_time[k] == before.infected_time[k]);
                    }
                }
                assert(m.pos_x.len() == n && m.pos_y.len() == n && m.vel_x.len() == n);
                assert(n <= MAX_AGENTS);
                assert(m.vel_y.len() == n && m.state.len() == n && m.infected_time.len() == n);
                assert(agents_ok(m));
                assert forall|k: int| 0 <= k < i + 1 implies (#[trigger] self@.state[k], self@.infected_time[k])
                    == advance_health(m0.state[k], m0.infected_time[k], infect@[k], dt, period) by {
                    if k < i {
                        assert(before.state[k] == self@.state[k]);
                    }
                }
                assert forall|k: int| i + 1 <= k < n implies #[trigger] self@.state[k] == m0.state[k]
                    && self@.infected_time[k] == m0.infected_time[k] by {
                    assert(before.state[k] == m0.state[k]);
                    assert(before.infected_time[k] == m0.infected_time[k]);
                    assert(self@.state[k] == before.state[k]);
                    assert(self@.infected_time[k] == before.infected_time[k]);
                }
                assert(self@ == (SimModel { state: self@.state, infected_time: self@.infected_time, ..m0 }));
                assert(self@.pos_x.len() <= MAX_AGENTS);
                assert(self@.pos_y.len() == n);
                assert(self@.vel_x.len() == n);
                assert(self@.state.len() == n);
                assert(self@.infected_time.len() == n);
                assert(agents_ok(self@));
                assert(self.policies@ == before_policies);
                assert(self.grid.wf());
            }
            i = i + 1;
        }
    }

    /// Advance the simulation by `dt`: rebuild the grid; from that one
    /// snapshot compute every agent's acceleration and infection; integrate
    /// every agent; then apply infections, advance timers and recover.
    ///
    /// `dt` is fixed point and lies in `[0, MAX_DT]` (4.0): a limit of the
    /// 64-bit representation, under which no intermediate product overflows.
    pub fn step(&mut self, dt: i64)
        requires
            old(self).wf(),
            0 <= dt <= MAX_DT,
        ensures
            final(self).wf(),
            final(self)@.pos_x.len() == old(self)@.pos_x.len(),
            final(self)@.cfg == old(self)@.cfg,
            final(self)@.policies == old(self)@.policies,
            forall|k: int| 0 <= k < old(self)@.pos_x.len() ==> moved(old(self)@, final(self)@, k, dt),
            forall|k: int| 0 <= k < old(self)@.pos_x.len() ==> #[trigger] health_stepped(old(self)@, final(self)@, k, dt),
            final(self)@ == step_spec(old(self)@, dt),
    {
        let ghost m0 = self@;
        self.rebuild_grid();
        let (ax, ay, infect) = self.decide(dt);
        let ghost m1 = self@;
        self.integrate(&ax, &ay, dt);
        let ghost m2 = self@;
        self.advance_all(&infect, dt);
        proof {
            assert forall|k: int| 0 <= k < m0.pos_x.len() implies moved(m0, self@, k, dt) by {
                assert(moved(m1, m2, k, dt));
            }
            assert forall|k: int| 0 <= k < m0.pos_x.len() implies #[trigger] health_stepped(m0, self@, k, dt) by {
                let b = infect@[k];
                assert(b ==> infection_allowed(m0, k, dt));
                assert(m2.state[k] == m0.state[k] && m2.infected_time[k] == m0.infected_time[k]);
                assert((self@.state[k], self@.infected_time[k]) == advance_health(
                    m0.state[k], m0.infected_time[k], b, dt, m0.cfg.infectious_period));
            }
            let t = step_spec(m0, dt);
            let n = m0.pos_x.len();
            assert forall|k: int| 0 <= k < n implies self@.pos_x[k] == t.pos_x[k] && self@.pos_y[k] == t.pos_y[k]
                && self@.vel_x[k] == t.vel_x[k] && self@.vel_y[k] == t.vel_y[k] by {
                assert(integrated(m1, m2, ax@[k] as int, ay@[k] as int, k, dt));
            }
            assert forall|k: int| 0 <= k < n implies self@.state[k] == t.state[k]
                && self@.infected_time[k] == t.infected_time[k] by {
                assert(m2.state[k] == m0.state[k] && m2.infected_time[k] == m0.infected_time[k]);
            }
            assert(self@.pos_x =~= t.pos_x);
            assert(self@.pos_y =~= t.pos_y);
            assert(self@.vel_x =~= t.vel_x);
            assert(self@.vel_y =~= t.vel_y);
            assert(self@.state =~= t.state);
            assert(self@.infected_time =~= t.infected_time);
        }
    }
}

/// Agent `k` of `b` is agent `k` of `a` integrated over `dt` with
/// acceleration `(ax, ay)`: the velocity as `velocity_after`, the position
/// plus the new velocity times `dt`, wrapped into the world.
pub open spec fn integrated(a: SimModel, b: SimModel, ax: int, ay: int, k: int, dt: i64) -> bool {
    let v = velocity_after(a.vel_x[k] as int, a.vel_y[k] as int, ax, ay, dt as int, a.cfg.max_speed as int);
    &&& b.vel_x[k] == v.0
    &&& b.vel_y[k] == v.1
    &&& b.pos_x[k] == wrap_spec(a.pos_x[k] + tdiv(v.0 * dt, ONE as int), a.cfg.world_size.x as int)
    &&& b.pos_y[k] == wrap_spec(a.pos_y[k] + tdiv(v.1 * dt, ONE as int), a.cfg.world_size.y as int)
}

/// One step of length `dt` from `m`. From the one snapshot `m`, the read
/// pass (`decide_fold`) gives every agent's acceleration and infection and
/// moves the generator; every agent is then integrated with its
/// acceleration; then infections apply, timers advance and agents recover,
/// as `advance_health`.
pub open spec fn step_spec(m: SimModel, dt: i64) -> SimModel {
    let n = m.pos_x.len();
    let d = decide_fold(m, chance_of_rate_spec(m.cfg.infection_beta * dt / ONE as int), n);
    let ms = m.cfg.max_speed as int;
    SimModel {
        vel_x: Seq::new(
            n,
            |k: int| velocity_after(m.vel_x[k] as int, m.vel_y[k] as int, d.0[k].x as int, d.0[k].y as int, dt as int, ms).0 as i64,
        ),
        vel_y: Seq::new(
            n,
            |k: int| velocity_after(m.vel_x[k] as int, m.vel_y[k] as int, d.0[k].x as int, d.0[k].y as int, dt as int, ms).1 as i64,
        ),
        pos_x: Seq::new(
            n,
            |k: int|
                wrap_spec(
                    m.pos_x[k] + tdiv(
                        velocity_after(m.vel_x[k] as int, m.vel_y[k] as int, d.0[k].x as int, d.0[k].y as int, dt as int, ms).0
                            * dt,
                        ONE as int,
                    ),
                    m.cfg.world_size.x as int,
                ) as i64,
        ),
        pos_y: Seq::new(
            n,
            |k: int|
                wrap_spec(
                    m.pos_y[k] + tdiv(
                        velocity_after(m.vel_x[k] as int, m.vel_y[k] as int, d.0[k].x as int, d.0[k].y as int, dt as int, ms).1
                            * dt,
                        ONE as int,
                    ),
                    m.cfg.world_size.y as int,
                ) as i64,
        ),
        state: Seq::new(n, |k: int| advance_health(m.state[k], m.infected_time[k], d.1[k], dt, m.cfg.infectious_period).0),
        infected_time: Seq::new(
            n,
            |k: int| advance_health(m.state[k], m.infected_time[k], d.1[k], dt, m.cfg.infectious_period).1,
        ),
        rng_state: d.2,
        ..m
    }
}

/// Agent `k` moved from `a` to `b` in a step of length `dt`: its new
/// velocity is its old one after some acceleration within the largest
/// force, limited to the largest speed; and its new position
/// is the old one plus the new velocity times `dt`, wrapped into the world.
pub open spec fn moved(a: SimModel, b: SimModel, k: int, dt: i64) -> bool {
    let ms = a.cfg.max_speed;
    let mf = a.cfg.max_force;
    &&& exists|ax: int, ay: int|
        -mf <= ax <= mf && -mf <= ay <= mf && (b.vel_x[k] as int, b.vel_y[k] as int) == #[trigger] velocity_after(
            a.vel_x[k] as int,
            a.vel_y[k] as int,
            ax,
            ay,
            dt as int,
            ms as int,
        )
    &&& -ms <= b.vel_x[k] <= ms
    &&& -ms <= b.vel_y[k] <= ms
    &&& b.pos_x[k] == wrap_spec(a.pos_x[k] + tdiv(b.vel_x[k] * dt, ONE as int), a.cfg.world_size.x as int)
    &&& b.pos_y[k] == wrap_spec(a.pos_y[k] + tdiv(b.vel_y[k] * dt, ONE as int), a.cfg.world_size.y as int)
    &&& 0 <= b.pos_x[k] < a.cfg.world_size.x
    &&& 0 <= b.pos_y[k] < a.cfg.world_size.y
}

/// Agent `k`'s health went from `a` to `b` in a step of length `dt`: as
/// `advance_health` says, for an infection that happened only where
/// `infection_allowed` admits it.
pub open spec fn health_stepped(a: SimModel, b: SimModel, k: int, dt: i64) -> bool {
    exists|infect: bool|
        (infect ==> infection_allowed(a, k, dt)) && (b.state[k], b.infected_time[k]) == advance_health(
            a.state[k],
            a.infected_time[k],
            infect,
            dt,
            a.cfg.infectious_period,
        )
}

/// Agent `k` may be infected in a step of length `dt` from `m`: it is
/// Susceptible, has an infected contact, and the step's infection
/// probability is positive.
pub open spec fn infection_allowed(m: SimModel, k: int, dt: i64) -> bool {
    &&& m.state[k] == HealthState::Susceptible
    &&& has_infected_contact(m, k)
    &&& chance_of_rate_spec(m.cfg.infection_beta * dt / ONE as int) > 0
}

/// Monotonic epidemic progress over a step: whatever a step does to agent
/// `k`, its state does not move backward, Recovered stays Recovered, and a
/// Susceptible agent leaves that state only through an infected contact.
pub proof fn lemma_step_only_advances(a: SimModel, b: SimModel, k: int, dt: i64)
    requires
        health_stepped(a, b, k, dt),
        0 <= dt,
    ensures
        progress_rank(b.state[k]) >= progress_rank(a.state[k]),
        a.state[k] == HealthState::Recovered ==> b.state[k] == HealthState::Recovered,
        a.state[k] == HealthState::Susceptible && b.state[k] != HealthState::Susceptible ==> has_infected_contact(a, k),
{
    let infect = choose|infect: bool|
        (infect ==> infection_allowed(a, k, dt)) && (b.state[k], b.infected_time[k]) == advance_health(
            a.state[k],
            a.infected_time[k],
            infect,
            dt,
            a.cfg.infectious_period,
        );
    lemma_health_only_advances(a.state[k], a.infected_time[k], infect, dt, a.cfg.infectious_period);
}

proof fn lemma_count_susceptible_shrinks(a: Seq<HealthState>, b: Seq<HealthState>)
    requires
        a.len() == b.len(),
        forall|k: int| 0 <= k < a.len() && a[k] != HealthState::Susceptible ==> #[trigger] b[k] != HealthState::Susceptible,
    ensures
        count_state(b, HealthState::Susceptible) <= count_state(a, HealthState::Susceptible),
    decreases a.len(),
{
    if a.len() > 0 {
        let n = a.len() - 1;
        assert(a[n] != HealthState::Susceptible ==> b[n] != HealthState::Susceptible);
        assert forall|k: int|
            0 <= k < a.drop_last().len() && a.drop_last()[k] != HealthState::Susceptible implies #[trigger] b.drop_last()[k]
                != HealthState::Susceptible by {
            assert(a.drop_last()[k] == a[k] && b.drop_last()[k] == b[k]);
        }
        lemma_count_susceptible_shrinks(a.drop_last(), b.drop_last());
    }
}

/// Over a step, the infected plus the recovered never decrease: the number
/// of Susceptible agents can only fall, the population being constant.
pub proof fn lemma_step_ever_infected_grows(a: SimModel, b: SimModel, dt: i64)
    requires
        a.state.len() == b.state.len(),
        0 <= dt,
        forall|k: int| 0 <= k < a.state.len() ==> #[trigger] health_stepped(a, b, k, dt),
    ensures
        count_state(b.state, HealthState::Infected) + count_state(b.state, HealthState::Recovered)
            >= count_state(a.state, HealthState::Infected) + count_state(a.state, HealthState::Recovered),
{
    assert forall|k: int| 0 <= k < a.state.len() && a.state[k] != HealthState::Susceptible implies #[trigger] b.state[k]
        != HealthState::Susceptible by {
        assert(health_stepped(a, b, k, dt));
        lemma_step_only_advances(a, b, k, dt);
    }
    lemma_count_susceptible_shrinks(a.state, b.state);
    lemma_counts_conserve(a.state);
    lemma_counts_conserve(b.state);
}

proof fn lemma_count_zero_none(s: Seq<HealthState>, h: HealthState, k: int)
    requires
        count_state(s, h) == 0,
        0 <= k < s.len(),
    ensures
        s[k] != h,
    decreases s.len(),
{
    if k < s.len() - 1 {
        assert(s.drop_last()[k] == s[k]);
        lemma_count_zero_none(s.drop_last(), h, k);
    }
}

/// Once no agent is Infected the epidemic is over: a step changes no
/// agent's health state.
pub proof fn lemma_no_infected_is_stable(a: SimModel, b: SimModel, dt: i64)
    requires
        a.state.len() == b.state.len(),
        0 <= dt,
        count_state(a.state, HealthState::Infected) == 0,
        forall|k: int| 0 <= k < a.state.len() ==> #[trigger] health_stepped(a, b, k, dt),
    ensures
        b.state == a.state,
{
    assert forall|k: int| 0 <= k < a.state.len() implies #[trigger] b.state[k] == a.state[k] by {
        assert(health_stepped(a, b, k, dt));
        let infect = choose|infect: bool|
            (infect ==> infection_allowed(a, k, dt)) && (b.state[k], b.infected_time[k]) == advance_health(
                a.state[k],
                a.infected_time[k],
                infect,
                dt,
                a.cfg.infectious_period,
            );
        lemma_count_zero_none(a.state, HealthState::Infected, k);
        if infect {
            let j = choose|j: int| infects(a, k, j);
            lemma_count_zero_none(a.state, HealthState::Infected, j);
        }
    }
    assert(b.state =~= a.state);
}

/// The model after `steps` steps of length `dt` from `m`.
pub open spec fn run_spec(m: SimModel, dt: i64, steps: nat) -> SimModel
    decreases steps,
{
    if steps == 0 {
        m
    } else {
        step_spec(run_spec(m, dt, (steps - 1) as nat), dt)
    }
}

/// The compartment counts of a model.
pub open spec fn counts_of(m: SimModel) -> SirCounts {
    SirCounts {
        susceptible: count_state(m.state, HealthState::Susceptible) as usize,
        infected: count_state(m.state, HealthState::Infected) as usize,
        recovered: count_state(m.state, HealthState::Recovered) as usize,
    }
}

/// Determinism: `new` yields `new_spec` of its arguments and each `step`
/// yields `step_spec` of the model before it, so any two runs with the same
/// agent count, configuration, seed, step length and number of steps end
/// with the same agents: positions, velocities, health states and timers.
pub proof fn lemma_runs_agree(a: SimModel, b: SimModel, count: nat, cfg: SimConfig, seed: u32, dt: i64, steps: nat)
    requires
        a == run_spec(new_spec(count, cfg, seed), dt, steps),
        b == run_spec(new_spec(count, cfg, seed), dt, steps),
    ensures
        a.pos_x == b.pos_x,
        a.pos_y == b.pos_y,
        a.vel_x == b.vel_x,
        a.vel_y == b.vel_y,
        a.state == b.state,
        a.infected_time == b.infected_time,
{
}

} // verus!
