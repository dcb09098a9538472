use boid_sir::fixed::{chance_of_rate, cos_turns, isqrt, neg_ln, sin_turns, tanh_fx, Vec2f, ONE};
use boid_sir::rng::Lcg;
use boid_sir::sim::{wrap_coord, wrap_position};

#[test]
fn lcg_sequence_from_zero() {
    let mut g = Lcg::new(0);
    assert_eq!(g.next_u32(), 1013904223);
    assert_eq!(g.next_u32(), 1196435762);
    assert_eq!(g.next_u32(), 3519870697);
}

#[test]
fn lcg_same_seed_same_stream() {
    let mut a = Lcg::new(1337);
    let mut b = Lcg::new(1337);
    for _ in 0..100 {
        assert_eq!(a.next_u32(), b.next_u32());
    }
}

#[test]
fn unit_draws_scale_the_state() {
    let mut g = Lcg::new(42);
    assert_eq!(g.next_unit(), 16537);
    assert_eq!(g.state, 1083814273);
    assert_eq!(g.next_unit(), 5775);
}

#[test]
fn unit_draws_stay_below_one() {
    // this state steps to u32::MAX, the largest state
    let mut g = Lcg::new(653637408);
    assert_eq!(g.next_unit(), 65535);
    assert_eq!(g.state, u32::MAX);
    let mut z = Lcg::new(0);
    z.state = 634785765; // steps to 0
    assert_eq!(z.next_unit(), 0);
    let mut h = Lcg::new(99);
    for _ in 0..10_000 {
        assert!(h.next_unit() < 65536);
    }
}

#[test]
fn isqrt_rounds_down() {
    assert_eq!(isqrt(0), 0);
    assert_eq!(isqrt(1), 1);
    assert_eq!(isqrt(15), 3);
    assert_eq!(isqrt(16), 4);
    assert_eq!(isqrt(17), 4);
    assert_eq!(isqrt(1 << 62), 1 << 31);
    assert_eq!(isqrt((1 << 62) - 1), (1 << 31) - 1);
}

#[test]
fn activation_values() {
    assert_eq!(tanh_fx(0), 0);
    assert_eq!(tanh_fx(ONE), 50972);
    assert_eq!(tanh_fx(-ONE), -50972);
    assert_eq!(tanh_fx(ONE / 2), 30527);
    assert_eq!(tanh_fx(3 * ONE), ONE);
    assert_eq!(tanh_fx(10 * ONE), ONE);
    assert_eq!(tanh_fx(i64::MIN), -ONE);
}

#[test]
fn infection_chance_from_rate() {
    // beta = 1.2, dt = 1/60: 1 - exp(-0.02) = 0.0198
    assert_eq!(chance_of_rate(78643, 1092), 1298);
    // 1 - exp(-1) = 0.632
    assert_eq!(chance_of_rate(ONE, ONE), 41427);
    assert_eq!(chance_of_rate(0, 1092), 0);
    assert_eq!(chance_of_rate(ONE, 0), 0);
    assert_eq!(chance_of_rate(0x1000_0000, ONE), ONE);
}

#[test]
fn cosine_and_sine_of_turns() {
    assert_eq!(cos_turns(0), ONE);
    assert_eq!(cos_turns(ONE / 2), -ONE);
    assert_eq!(cos_turns(ONE), ONE);
    assert_eq!(cos_turns(ONE / 8), 46340);
    assert!(cos_turns(ONE / 4).abs() <= 1);
    assert_eq!(sin_turns(ONE / 4), ONE);
    assert_eq!(sin_turns(3 * ONE / 4), -ONE);
    assert!(sin_turns(0).abs() <= 1);
}

#[test]
fn negative_log_values() {
    assert_eq!(neg_ln(ONE), 0);
    assert_eq!(neg_ln(ONE / 2), 45426);
    assert_eq!(neg_ln(1), 726817);
    assert_eq!(neg_ln(30000), 51209);
}

#[test]
fn vector_operations() {
    let a = Vec2f::new(3 * ONE, 4 * ONE);
    let b = Vec2f::new(ONE, -ONE);
    assert_eq!(a.add(b), Vec2f::new(4 * ONE, 3 * ONE));
    assert_eq!(a.sub(b), Vec2f::new(2 * ONE, 5 * ONE));
    assert_eq!(a.mul(ONE / 2), Vec2f::new(3 * ONE / 2, 2 * ONE));
    assert_eq!(a.div(2 * ONE), Vec2f::new(3 * ONE / 2, 2 * ONE));
    assert_eq!(a.length(), 5 * ONE);
    assert_eq!(a.limit(10 * ONE), a);
    assert_eq!(a.limit(ONE), Vec2f::new(39321, 52428));
    assert_eq!(Vec2f::new(-3 * ONE, 0).limit(ONE), Vec2f::new(-ONE, 0));
}

#[test]
fn toroidal_wrap_edges() {
    let size = 800 * ONE;
    assert_eq!(wrap_coord(size, size), 0);
    assert_eq!(wrap_coord(-1, size), size - 1);
    assert_eq!(wrap_coord(-ONE / 100, size), size - ONE / 100);
    assert_eq!(wrap_coord(5 * ONE, size), 5 * ONE);
    assert_eq!(wrap_coord(0, size), 0);
    assert_eq!(wrap_coord(size + 7, size), 7);
    assert_eq!(wrap_coord(-3 * size - 2, size), size - 2);
    let w = wrap_position(Vec2f::new(size, -1), Vec2f::new(size, 600 * ONE));
    assert_eq!(w, Vec2f::new(0, 600 * ONE - 1));
}
