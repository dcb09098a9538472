use boid_sir::fixed::ONE;
use boid_sir::policy::{NnPolicy, FEATURE_SIZE, HIDDEN_SIZE};
use boid_sir::rng::Lcg;

fn random_policy(seed: u32) -> NnPolicy {
    let mut p = NnPolicy::new(FEATURE_SIZE, HIDDEN_SIZE);
    let mut g = Lcg::new(seed);
    p.randomize(&mut g, 39321);
    p
}

fn sample_input(seed: u32) -> Vec<i64> {
    let mut g = Lcg::new(seed);
    (0..FEATURE_SIZE).map(|_| (g.next_unit() as i64) * 2 - ONE).collect()
}

#[test]
fn policy_round_trip_keeps_output() {
    let p = random_policy(11);
    let q = NnPolicy::from_vec(FEATURE_SIZE, HIDDEN_SIZE, &p.to_vec());
    assert_eq!(q.to_vec(), p.to_vec());
    for s in 0..20 {
        let x = sample_input(s);
        let mut h1 = vec![0i64; HIDDEN_SIZE];
        let mut h2 = vec![0i64; HIDDEN_SIZE];
        assert_eq!(p.forward_into(&x, &mut h1), q.forward_into(&x, &mut h2));
        assert_eq!(h1, h2);
    }
}

#[test]
fn parameter_count_and_order() {
    let p = NnPolicy::new(3, 2);
    assert_eq!(p.param_count(), 3 * 2 + 2 + 2 * 2 + 2);
    let params: Vec<i64> = (0..14).collect();
    let q = NnPolicy::from_vec(3, 2, &params);
    assert_eq!(q.to_vec(), params);
    assert_eq!(q.input_size(), 3);
    assert_eq!(q.hidden_size(), 2);
    assert_eq!(NnPolicy::new(FEATURE_SIZE, HIDDEN_SIZE).param_count(), 14 * 16 + 16 + 32 + 2);
}

#[test]
fn zero_policy_outputs_zero() {
    let p = NnPolicy::new(FEATURE_SIZE, HIDDEN_SIZE);
    let mut h = vec![7i64; HIDDEN_SIZE];
    let out = p.forward_into(&sample_input(3), &mut h);
    assert_eq!((out.x, out.y), (0, 0));
    assert_eq!(h, vec![0i64; HIDDEN_SIZE]);
}

#[test]
fn forward_by_hand() {
    // one input, one hidden unit: h = act(w1 * x + b1); out = act(w2 * h + b2)
    let params = vec![ONE, 0, ONE, -ONE, 0, ONE / 2];
    let p = NnPolicy::from_vec(1, 1, &params);
    let mut h = vec![0i64; 1];
    let out = p.forward_into(&vec![ONE], &mut h);
    assert_eq!(h, vec![50972]);
    assert_eq!(out.x, boid_sir::fixed::tanh_fx(50972));
    assert_eq!(out.y, boid_sir::fixed::tanh_fx(ONE / 2 - 50972));
}

#[test]
fn randomize_stays_in_scale_and_uses_the_stream() {
    let p = random_policy(5);
    let v = p.to_vec();
    assert!(v.iter().all(|w| w.abs() <= 39321));
    assert!(v.iter().any(|w| *w != 0));
    let mut g = Lcg::new(5);
    let u = g.next_unit() as i64;
    assert_eq!(v[0], boid_sir_first_param(u, 39321));
    let q = random_policy(5);
    assert_eq!(q.to_vec(), v);
}

fn boid_sir_first_param(u: i64, scale: i64) -> i64 {
    let c = (2 * u - ONE) * scale;
    if c >= 0 { c / ONE } else { -((-c) / ONE) }
}

#[test]
fn duplicate_is_equal() {
    let p = random_policy(9);
    assert_eq!(p.duplicate().to_vec(), p.to_vec());
}
