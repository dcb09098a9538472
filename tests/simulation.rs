use boid_sir::fixed::{Vec2f, ONE};
use boid_sir::policy::{NnPolicy, FEATURE_SIZE, HIDDEN_SIZE};
use boid_sir::sim::{HealthState, SimConfig, Simulation};

fn fx(v: f64) -> i64 {
    (v * ONE as f64).round() as i64
}

fn config() -> SimConfig {
    SimConfig {
        world_size: Vec2f::new(fx(800.0), fx(600.0)),
        max_speed: fx(160.0),
        max_force: fx(80.0),
        neighbor_radius: fx(60.0),
        separation_radius: fx(22.0),
        infection_radius: fx(18.0),
        infection_beta: fx(1.2),
        infectious_period: fx(6.0),
        initial_infected: 8,
    }
}

fn rank(s: HealthState) -> usize {
    s.idx()
}

fn snapshot(sim: &Simulation) -> Vec<(Vec2f, Vec2f, HealthState)> {
    (0..sim.boid_count()).map(|i| (sim.boid_pos(i), sim.boid_vel(i), sim.boid_state(i))).collect()
}

#[test]
fn new_places_agents_in_the_world() {
    let sim = Simulation::new(300, config(), 1337);
    assert_eq!(sim.boid_count(), 300);
    let c = sim.counts();
    assert_eq!(c.susceptible + c.infected + c.recovered, 300);
    assert!(c.infected >= 1 && c.infected <= 8);
    assert_eq!(c.recovered, 0);
    for i in 0..300 {
        let p = sim.boid_pos(i);
        assert!(p.x >= 0 && p.x < fx(800.0) && p.y >= 0 && p.y < fx(600.0));
        let v = sim.boid_vel(i);
        assert!(v.length() <= fx(160.0) + fx(0.2));
        assert!(v.length() >= fx(160.0) * 3 / 10 - fx(0.2));
    }
}

#[test]
fn initial_infected_is_capped_by_population() {
    let mut cfg = config();
    cfg.initial_infected = 50;
    let sim = Simulation::new(3, cfg, 1);
    assert!(sim.counts().infected <= 3);
    let empty = Simulation::new(0, config(), 1);
    assert_eq!(empty.boid_count(), 0);
}

#[test]
fn population_is_conserved_every_step() {
    let mut sim = Simulation::new(400, config(), 1337);
    for _ in 0..120 {
        sim.step(1092);
        let c = sim.counts();
        assert_eq!(c.susceptible + c.infected + c.recovered, 400);
        assert_eq!(sim.boid_count(), 400);
    }
}

#[test]
fn health_only_moves_forward() {
    let mut sim = Simulation::new(400, config(), 99);
    let mut prev: Vec<HealthState> = (0..400).map(|i| sim.boid_state(i)).collect();
    for _ in 0..150 {
        sim.step(1092);
        for i in 0..400 {
            let s = sim.boid_state(i);
            assert!(rank(s) >= rank(prev[i]));
            if prev[i] == HealthState::Recovered {
                assert_eq!(s, HealthState::Recovered);
            }
            prev[i] = s;
        }
    }
}

#[test]
fn runs_are_deterministic() {
    let mut a = Simulation::new(300, config(), 4242);
    let mut b = Simulation::new(300, config(), 4242);
    assert_eq!(snapshot(&a), snapshot(&b));
    for _ in 0..90 {
        a.step(1092);
        b.step(1092);
    }
    assert_eq!(snapshot(&a), snapshot(&b));
    let mut c = Simulation::new(300, config(), 4243);
    c.step(1092);
    assert_ne!(snapshot(&a), snapshot(&c));
}

#[test]
fn end_to_end_epidemic() {
    let mut sim = Simulation::new(1200, config(), 1337);
    let mut ever = {
        let c = sim.counts();
        c.infected + c.recovered
    };
    let mut last_states: Vec<HealthState> = Vec::new();
    for _ in 0..600 {
        sim.step(1092);
        let c = sim.counts();
        assert!(c.infected + c.recovered >= ever);
        ever = c.infected + c.recovered;
        let states: Vec<HealthState> = (0..1200).map(|i| sim.boid_state(i)).collect();
        if c.infected == 0 && !last_states.is_empty() {
            let prev_infected = last_states.iter().filter(|s| **s == HealthState::Infected).count();
            if prev_infected == 0 {
                assert_eq!(states, last_states);
            }
        }
        last_states = states;
    }
    assert!(ever >= 1);
}

#[test]
fn no_spread_without_infection_rate() {
    let mut cfg = config();
    cfg.infection_beta = 0;
    let mut sim = Simulation::new(400, cfg, 3);
    let start = sim.counts();
    for _ in 0..60 {
        sim.step(1092);
    }
    let end = sim.counts();
    assert_eq!(end.susceptible, start.susceptible);
    assert_eq!(end.infected + end.recovered, start.infected);
}

#[test]
fn infected_agents_recover_after_the_period() {
    let mut cfg = config();
    cfg.infection_beta = 0;
    cfg.infectious_period = ONE;
    let mut sim = Simulation::new(50, cfg, 8);
    let infected = sim.counts().infected;
    assert!(infected > 0);
    // 59 steps of 1/60 s stay below 1.0 s; 61 steps pass it
    for _ in 0..59 {
        sim.step(1092);
    }
    assert_eq!(sim.counts().infected, infected);
    sim.step(1092);
    sim.step(1092);
    assert_eq!(sim.counts().infected, 0);
    assert_eq!(sim.counts().recovered, infected);
}

#[test]
fn zero_length_step_keeps_positions() {
    let mut sim = Simulation::new(100, config(), 12);
    let before = snapshot(&sim);
    sim.step(0);
    for (i, (p, _, _)) in before.iter().enumerate() {
        assert_eq!(sim.boid_pos(i), *p);
    }
}

#[test]
fn setters_clamp_to_safe_ranges() {
    let mut sim = Simulation::new(10, config(), 1);
    sim.set_motion_params(0, ONE * 100, -5, 0);
    let c = sim.config();
    assert_eq!(c.neighbor_radius, ONE);
    assert_eq!(c.separation_radius, ONE);
    assert_eq!(c.max_speed, ONE);
    assert_eq!(c.max_force, ONE);
    sim.set_motion_params(fx(60.0), 0, fx(160.0), fx(80.0));
    assert_eq!(sim.config().separation_radius, ONE / 2);
    sim.set_infection_params(-1, -1, 0);
    let c = sim.config();
    assert_eq!(c.infection_radius, ONE);
    assert_eq!(c.infection_beta, 0);
    assert_eq!(c.infectious_period, 6553);
    sim.set_world_size(Vec2f::new(0, fx(300.0)));
    assert_eq!(sim.config().world_size, Vec2f::new(1, fx(300.0)));
    sim.set_world_size(Vec2f::new(ONE / 2, fx(300.0)));
    assert_eq!(sim.config().world_size, Vec2f::new(ONE / 2, fx(300.0)));
    sim.step(1092);
    for i in 0..10 {
        let p = sim.boid_pos(i);
        assert!(p.x >= 0 && p.x < ONE / 2 && p.y >= 0 && p.y < fx(300.0));
    }
}

#[test]
fn new_keeps_a_small_positive_world() {
    let mut cfg = config();
    cfg.world_size = Vec2f::new(ONE / 4, ONE / 8);
    let sim = Simulation::new(20, cfg, 6);
    assert_eq!(sim.config().world_size, Vec2f::new(ONE / 4, ONE / 8));
    for i in 0..20 {
        let p = sim.boid_pos(i);
        assert!(p.x >= 0 && p.x < ONE / 4 && p.y >= 0 && p.y < ONE / 8);
    }
}

#[test]
fn new_clamps_the_configuration() {
    let mut cfg = config();
    cfg.max_speed = 0;
    cfg.neighbor_radius = -3;
    cfg.separation_radius = fx(500.0);
    let sim = Simulation::new(5, cfg, 2);
    let c = sim.config();
    assert_eq!(c.max_speed, ONE);
    assert_eq!(c.neighbor_radius, ONE);
    assert_eq!(c.separation_radius, ONE);
}

#[test]
fn speeds_stay_within_the_limit() {
    let mut sim = Simulation::new(200, config(), 77);
    for _ in 0..30 {
        sim.step(ONE);
        for i in 0..200 {
            let v = sim.boid_vel(i);
            assert!(v.x.abs() <= fx(160.0) && v.y.abs() <= fx(160.0));
        }
    }
}

#[test]
fn policies_are_exchanged_by_copy() {
    let mut sim = Simulation::new(10, config(), 5);
    let zero = NnPolicy::new(FEATURE_SIZE, HIDDEN_SIZE);
    let before = sim.policy_for(HealthState::Infected).to_vec();
    assert!(before.iter().any(|w| *w != 0));
    sim.set_policy_for(HealthState::Susceptible, zero.duplicate());
    assert!(sim.policy_for(HealthState::Susceptible).to_vec().iter().all(|w| *w == 0));
    assert_eq!(sim.policy_for(HealthState::Infected).to_vec(), before);
    assert_eq!(HealthState::Susceptible.idx(), 0);
    assert_eq!(HealthState::Infected.idx(), 1);
    assert_eq!(HealthState::Recovered.idx(), 2);
}

fn tdiv(a: i64, b: i64) -> i64 {
    if a >= 0 { a / b } else { -((-a) / b) }
}

#[test]
fn lone_agent_without_steering_moves_straight() {
    let mut sim = Simulation::new(1, config(), 21);
    for s in [HealthState::Susceptible, HealthState::Infected, HealthState::Recovered] {
        sim.set_policy_for(s, NnPolicy::new(FEATURE_SIZE, HIDDEN_SIZE));
    }
    for _ in 0..50 {
        let p = sim.boid_pos(0);
        let v = sim.boid_vel(0);
        sim.step(1092);
        assert_eq!(sim.boid_vel(0), v);
        let w = config().world_size;
        let nx = (p.x + tdiv(v.x * 1092, ONE)).rem_euclid(w.x);
        let ny = (p.y + tdiv(v.y * 1092, ONE)).rem_euclid(w.y);
        assert_eq!(sim.boid_pos(0), Vec2f::new(nx, ny));
    }
}

#[test]
fn long_steps_up_to_four_seconds() {
    let mut sim = Simulation::new(200, config(), 31);
    for _ in 0..20 {
        sim.step(4 * ONE);
        let c = sim.counts();
        assert_eq!(c.susceptible + c.infected + c.recovered, 200);
        for i in 0..200 {
            let p = sim.boid_pos(i);
            assert!(p.x >= 0 && p.x < fx(800.0) && p.y >= 0 && p.y < fx(600.0));
            let v = sim.boid_vel(i);
            assert!(v.x.abs() <= fx(160.0) && v.y.abs() <= fx(160.0));
        }
    }
}
