use boid_sir::cem::{
    cem_iteration_with, evaluate, fitness, perturb, rank_by_score, refine_from_scores, run_rollout, state_idx,
    CemSettings, Rand,
};
use boid_sir::fixed::{Vec2f, ONE};
use boid_sir::policy::NnPolicy;
use boid_sir::sim::{HealthState, SimConfig, SirCounts, Simulation};

fn fx(v: f64) -> i64 {
    (v * ONE as f64).round() as i64
}

fn config() -> SimConfig {
    SimConfig {
        world_size: Vec2f::new(fx(200.0), fx(150.0)),
        max_speed: fx(160.0),
        max_force: fx(80.0),
        neighbor_radius: fx(60.0),
        separation_radius: fx(22.0),
        infection_radius: fx(18.0),
        infection_beta: fx(1.2),
        infectious_period: fx(6.0),
        initial_infected: 4,
    }
}

fn policies() -> Vec<NnPolicy> {
    let sim = Simulation::new(1, config(), 1337);
    vec![
        sim.policy_for(HealthState::Susceptible).duplicate(),
        sim.policy_for(HealthState::Infected).duplicate(),
        sim.policy_for(HealthState::Recovered).duplicate(),
    ]
}

fn small_settings() -> CemSettings {
    CemSettings { pop_size: 24, elite: 6, sigma: 22938, agents: 60, steps: 40, dt: 1092, seed: 9001 }
}

#[test]
fn generator_matches_engine_stream() {
    let mut r = Rand::new(0);
    assert_eq!(r.next_u32(), 1013904223);
    assert_eq!(r.next_u32(), 1196435762);
    let mut u = Rand::new(42);
    assert_eq!(u.next_unit(), 16537);
}

#[test]
fn normal_samples_are_deterministic_and_plausible() {
    let mut a = Rand::new(4242);
    let mut b = Rand::new(4242);
    let xs: Vec<i64> = (0..2000).map(|_| a.normal()).collect();
    let ys: Vec<i64> = (0..2000).map(|_| b.normal()).collect();
    assert_eq!(xs, ys);
    assert!(xs.iter().all(|x| x.abs() <= 6 * ONE));
    let mean = xs.iter().sum::<i64>() as f64 / 2000.0 / ONE as f64;
    let var = xs.iter().map(|x| (*x as f64 / ONE as f64 - mean).powi(2)).sum::<f64>() / 2000.0;
    assert!(mean.abs() < 0.1, "mean {}", mean);
    assert!((var - 1.0).abs() < 0.15, "variance {}", var);
}

#[test]
fn normal_from_known_draws() {
    // draws 16537 and 5775 from seed 42: sqrt(-2 ln 0.2523) * cos(2 pi 0.0881)
    let mut r = Rand::new(42);
    let z = r.normal() as f64 / ONE as f64;
    let expect = (-2.0 * (16537.0f64 / 65536.0).ln()).sqrt() * (2.0 * std::f64::consts::PI * 5775.0 / 65536.0).cos();
    assert!((z - expect).abs() < 0.001, "{} vs {}", z, expect);
}

#[test]
fn fitness_per_state() {
    let c = SirCounts { susceptible: 10, infected: 3, recovered: 7 };
    assert_eq!(fitness(HealthState::Susceptible, c), 10);
    assert_eq!(fitness(HealthState::Infected, c), 10);
    assert_eq!(fitness(HealthState::Recovered, c), 17);
    assert_eq!(state_idx(HealthState::Susceptible), 0);
    assert_eq!(state_idx(HealthState::Infected), 1);
    assert_eq!(state_idx(HealthState::Recovered), 2);
}

#[test]
fn ranking_is_descending_and_stable() {
    assert_eq!(rank_by_score(&vec![3, 9, 3, 1, 9]), vec![1, 4, 0, 2, 3]);
    assert_eq!(rank_by_score(&vec![]), Vec::<usize>::new());
    assert_eq!(rank_by_score(&vec![5, 5, 5]), vec![0, 1, 2]);
}

#[test]
fn refine_averages_the_elite() {
    let cands = vec![vec![10, -10], vec![20, 0], vec![30, 7], vec![-5, 5]];
    let scores = vec![1, 4, 4, 2];
    let (mean, best) = refine_from_scores(&cands, &scores, 2);
    assert_eq!(best, 4);
    assert_eq!(mean, vec![25, 3]);
    let (mean3, _) = refine_from_scores(&cands, &scores, 3);
    assert_eq!(mean3, vec![15, 4]);
    let (all, _) = refine_from_scores(&cands, &scores, 4);
    assert_eq!(all, vec![13, 0]);
}

#[test]
fn perturbation_moves_by_scaled_normals() {
    let mean = vec![0i64, ONE, -ONE];
    let mut r = Rand::new(7);
    let p = perturb(&mean, &mut r, ONE);
    let mut q = Rand::new(7);
    for (k, m) in mean.iter().enumerate() {
        let z = q.normal();
        assert_eq!(p[k], m + z);
    }
    assert_eq!(r.state, q.state);
    let mut s = Rand::new(7);
    assert_eq!(perturb(&mean, &mut s, 0), mean);
}

#[test]
fn rollout_counts_cover_the_population() {
    let c = run_rollout(config(), &policies(), 9001, 60, 30, 1092);
    assert_eq!(c.susceptible + c.infected + c.recovered, 60);
    let again = run_rollout(config(), &policies(), 9001, 60, 30, 1092);
    assert_eq!(c, again);
}

#[test]
fn evaluation_is_reproducible() {
    let ps = policies();
    let params = ps[1].to_vec();
    let s = small_settings();
    let a = evaluate(config(), &ps, HealthState::Infected, &params, &s);
    let b = evaluate(config(), &ps, HealthState::Infected, &params, &s);
    assert_eq!(a, b);
    assert!(a >= 0 && a <= 60);
}

#[test]
fn cem_sanity_best_beats_mean() {
    let ps = policies();
    let s = small_settings();
    for state in [HealthState::Susceptible, HealthState::Infected, HealthState::Recovered] {
        let mean_score = evaluate(config(), &ps, state, &ps[state.idx()].to_vec(), &s);
        let mut rng = Rand::new(4242);
        let (policy, best) = cem_iteration_with(config(), &ps, state, &mut rng, &s);
        assert!(best >= mean_score, "{:?}: best {} < mean {}", state, best, mean_score);
        assert!(best <= 60);
        assert_eq!(policy.param_count(), ps[0].param_count());
    }
}

#[test]
fn standard_settings() {
    let s = CemSettings::standard();
    assert_eq!((s.pop_size, s.elite, s.agents, s.steps, s.seed), (24, 6, 1200, 600, 9001));
    assert_eq!(s.dt, ONE / 60);
    assert_eq!(s.sigma, fx(0.35));
}
