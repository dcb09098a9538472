//! Compartment models for agents with a state timer: SIR, SIS (recovery
//! returns an agent to Susceptible) and SEIR (an infection first incubates
//! as Exposed).
use vstd::prelude::*;

verus! {

/// An agent's compartment.
#[derive(Clone, Copy, PartialEq, Eq, Debug, Structural)]
pub enum DiseaseState {
    Susceptible,
    Exposed,
    Infected,
    Recovered,
}

/// Which compartments an epidemic moves through.
#[derive(Clone, Copy, PartialEq, Eq, Debug, Structural)]
pub enum DiseaseModel {
    SIR,
    SIS,
    SEIR,
}

/// The compartment a new infection enters: Exposed under SEIR, otherwise
/// Infected.
pub open spec fn entry_state_spec(model: DiseaseModel) -> DiseaseState {
    match model {
        DiseaseModel::SEIR => DiseaseState::Exposed,
        _ => DiseaseState::Infected,
    }
}

impl DiseaseModel {
    /// The compartment a new infection enters; its timer restarts at zero.
    pub fn entry_state(self) -> (r: DiseaseState)
        ensures
            r == entry_state_spec(self),
    {
        match self {
            DiseaseModel::SEIR => DiseaseState::Exposed,
            DiseaseModel::SIR | DiseaseModel::SIS => DiseaseState::Infected,
        }
    }
}

/// One timer tick of length `dt` (fixed point, as are the timer and the
/// two durations): the timer advances; an Exposed agent (SEIR) becomes
/// Infected once it reaches the incubation time; an Infected agent
/// recovers once it reaches the recovery time, to Susceptible under SIS
/// and to Recovered otherwise; a change of compartment restarts the timer.
pub open spec fn tick_spec(
    model: DiseaseModel,
    state: DiseaseState,
    timer: int,
    dt: int,
    recovery_time: int,
    incubation_time: int,
) -> (DiseaseState, int) {
    let t = timer + dt;
    if state == DiseaseState::Infected && t >= recovery_time {
        (if model == DiseaseModel::SIS { DiseaseState::Susceptible } else { DiseaseState::Recovered }, 0)
    } else if model == DiseaseModel::SEIR && state == DiseaseState::Exposed && t >= incubation_time {
        (DiseaseState::Infected, 0)
    } else {
        (state, t)
    }
}

/// Advance an agent's compartment and timer by one tick, as `tick_spec`.
pub fn disease_tick(
    model: DiseaseModel,
    state: DiseaseState,
    timer: i64,
    dt: i64,
    recovery_time: i64,
    incubation_time: i64,
) -> (r: (DiseaseState, i64))
    requires
        i64::MIN <= timer + dt <= i64::MAX,
    ensures
        (r.0, r.1 as int) == tick_spec(model, state, timer as int, dt as int, recovery_time as int, incubation_time as int),
{
    let t = timer + dt;
    match model {
        DiseaseModel::SIR => {
            if state == DiseaseState::Infected && t >= recovery_time {
                (DiseaseState::Recovered, 0)
            } else {
                (state, t)
            }
        },
        DiseaseModel::SIS => {
            if state == DiseaseState::Infected && t >= recovery_time {
                (DiseaseState::Susceptible, 0)
            } else {
                (state, t)
            }
        },
        DiseaseModel::SEIR => {
            if state == DiseaseState::Exposed && t >= incubation_time {
                (DiseaseState::Infected, 0)
            } else if state == DiseaseState::Infected && t >= recovery_time {
                (DiseaseState::Recovered, 0)
            } else {
                (state, t)
            }
        },
    }
}

/// Number of entries of `s` in compartment `d`.
pub open spec fn count_disease(s: Seq<DiseaseState>, d: DiseaseState) -> nat
    decreases s.len(),
{
    if s.len() == 0 {
        0
    } else {
        count_disease(s.drop_last(), d) + if s.last() == d { 1nat } else { 0nat }
    }
}

proof fn lemma_count_disease_total(s: Seq<DiseaseState>)
    ensures
        count_disease(s, DiseaseState::Susceptible) + count_disease(s, DiseaseState::Exposed) + count_disease(
            s,
            DiseaseState::Infected,
        ) + count_disease(s, DiseaseState::Recovered) == s.len(),
    decreases s.len(),
{
    if s.len() > 0 {
        lemma_count_disease_total(s.drop_last());
    }
}

/// The number of agents in each compartment, in the order susceptible,
/// exposed, infected, recovered.
pub fn count_disease_states(states: &Vec<DiseaseState>) -> (r: (usize, usize, usize, usize))
    ensures
        r.0 == count_disease(states@, DiseaseState::Susceptible),
        r.1 == count_disease(states@, DiseaseState::Exposed),
        r.2 == count_disease(states@, DiseaseState::Infected),
        r.3 == count_disease(states@, DiseaseState::Recovered),
        r.0 + r.1 + r.2 + r.3 == states.len(),
{
    let mut s: usize = 0;
    let mut e: usize = 0;
    let mut i: usize = 0;
    let mut r: usize = 0;
    let mut k: usize = 0;
    while k < states.len()
        invariant
            k <= states.len(),
            s == count_disease(states@.subrange(0, k as int), DiseaseState::Susceptible),
            e == count_disease(states@.subrange(0, k as int), DiseaseState::Exposed),
            i == count_disease(states@.subrange(0, k as int), DiseaseState::Infected),
            r == count_disease(states@.subrange(0, k as int), DiseaseState::Recovered),
        decreases states.len() - k,
    {
        proof {
            assert(states@.subrange(0, k + 1).drop_last() == states@.subrange(0, k as int));
            lemma_count_disease_total(states@.subrange(0, k as int));
        }
        match states[k] {
            DiseaseState::Susceptible => s = s + 1,
            DiseaseState::Exposed => e = e + 1,
            DiseaseState::Infected => i = i + 1,
            DiseaseState::Recovered => r = r + 1,
        }
        k = k + 1;
    }
    proof {
        assert(states@.subrange(0, states.len() as int) == states@);
        lemma_count_disease_total(states@);
    }
    (s, e, i, r)
}

} // verus!
