use boid_sir::fixed::ONE;
use boid_sir::models::{count_disease_states, disease_tick, DiseaseModel, DiseaseState};

#[test]
fn infection_entry_state_per_model() {
    assert_eq!(DiseaseModel::SIR.entry_state(), DiseaseState::Infected);
    assert_eq!(DiseaseModel::SIS.entry_state(), DiseaseState::Infected);
    assert_eq!(DiseaseModel::SEIR.entry_state(), DiseaseState::Exposed);
}

#[test]
fn timer_ticks_and_transitions() {
    let rec = 5 * ONE;
    let inc = 3 * ONE;
    assert_eq!(disease_tick(DiseaseModel::SIR, DiseaseState::Infected, 4 * ONE, ONE / 2, rec, inc), (DiseaseState::Infected, 9 * ONE / 2));
    assert_eq!(disease_tick(DiseaseModel::SIR, DiseaseState::Infected, 4 * ONE, ONE, rec, inc), (DiseaseState::Recovered, 0));
    assert_eq!(disease_tick(DiseaseModel::SIS, DiseaseState::Infected, 4 * ONE, ONE, rec, inc), (DiseaseState::Susceptible, 0));
    assert_eq!(disease_tick(DiseaseModel::SEIR, DiseaseState::Exposed, 2 * ONE, ONE, rec, inc), (DiseaseState::Infected, 0));
    assert_eq!(disease_tick(DiseaseModel::SIR, DiseaseState::Exposed, 2 * ONE, ONE, rec, inc), (DiseaseState::Exposed, 3 * ONE));
    assert_eq!(disease_tick(DiseaseModel::SEIR, DiseaseState::Infected, 0, ONE, rec, inc), (DiseaseState::Infected, ONE));
    assert_eq!(disease_tick(DiseaseModel::SIR, DiseaseState::Susceptible, 0, ONE, rec, inc), (DiseaseState::Susceptible, ONE));
    assert_eq!(disease_tick(DiseaseModel::SEIR, DiseaseState::Recovered, 7, ONE, rec, inc), (DiseaseState::Recovered, 7 + ONE));
}

#[test]
fn compartment_counts() {
    let v = vec![
        DiseaseState::Susceptible,
        DiseaseState::Infected,
        DiseaseState::Exposed,
        DiseaseState::Infected,
        DiseaseState::Recovered,
        DiseaseState::Susceptible,
    ];
    assert_eq!(count_disease_states(&v), (2, 1, 2, 1));
    assert_eq!(count_disease_states(&vec![]), (0, 0, 0, 0));
}
