use vstd::prelude::*;

verus! {

/// Multiplier of the linear-congruential stream.
pub const LCG_MUL: u64 = 1664525;

/// Increment of the linear-congruential stream.
pub const LCG_INC: u64 = 1013904223;

/// The next state of the stream: `s * 1664525 + 1013904223 (mod 2^32)`.
pub open spec fn lcg_next(s: u32) -> u32 {
    ((s as int * LCG_MUL as int + LCG_INC as int) % 0x1_0000_0000) as u32
}

/// The state after `n` draws from state `s`.
pub open spec fn lcg_iter(s: u32, n: nat) -> u32
    decreases n,
{
    if n == 0 {
        s
    } else {
        lcg_next(lcg_iter(s, (n - 1) as nat))
    }
}

/// One step of the stream, computed without overflow in 64 bits.
pub fn lcg_advance(s: u32) -> (r: u32)
    ensures
        r == lcg_next(s),
{
    let wide: u64 = (s as u64) * LCG_MUL + LCG_INC;
    (wide % 0x1_0000_0000) as u32
}

/// The largest value of a unit draw: fixed-point 1.0.
pub const UNIT: u64 = 65536;

/// A draw scaled to the half-open unit interval `[0, 1)`, in fixed point:
/// `s * 65536 / 2^32`.
pub open spec fn unit_of(s: u32) -> u64 {
    ((s as int * UNIT as int) / 0x1_0000_0000) as u64
}

/// A unit draw lies in `[0, 1)`.
pub proof fn lemma_unit_range(s: u32)
    ensures
        0 <= unit_of(s) < UNIT,
{
    assert(0 <= (s as int * UNIT as int) / 0x1_0000_0000 < UNIT as int) by (nonlinear_arith)
        requires 0 <= s <= 0xffff_ffff;
}

pub fn unit_from(s: u32) -> (r: u64)
    ensures
        r == unit_of(s),
        r < UNIT,
{
    let r = (s as u64) * UNIT / 0x1_0000_0000;
    assert((s as int * UNIT as int) / 0x1_0000_0000 < UNIT as int) by (nonlinear_arith)
        requires s <= 0xffff_ffff;
    r
}

/// The deterministic generator used for placement, policy initialisation
/// and infection draws.
pub struct Lcg {
    pub state: u32,
}

impl Lcg {
    pub fn new(seed: u32) -> (r: Lcg)
        ensures
            r.state == seed,
    {
        Lcg { state: seed }
    }

    pub fn next_u32(&mut self) -> (r: u32)
        ensures
            final(self).state == lcg_next(old(self).state),
            r == final(self).state,
    {
        self.state = lcg_advance(self.state);
        self.state
    }

    /// A uniform draw in `[0, 1)` as fixed point (`UNIT` is 1.0).
    pub fn next_unit(&mut self) -> (r: u64)
        ensures
            final(self).state == lcg_next(old(self).state),
            r == unit_of(final(self).state),
            r < UNIT,
    {
        let s = self.next_u32();
        unit_from(s)
    }
}

} // verus!
