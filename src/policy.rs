//! The steering policy: a two-layer perceptron with `tanh`-like
//! activations, flattenable to and from one parameter vector.
use vstd::prelude::*;

use crate::fixed::{clamp_spec, div_i128, tanh_fx, tanh_fx_spec, tdiv, Vec2f, ONE, TANH_KNEE};
use crate::rng::{lcg_iter, lcg_next, unit_of, Lcg, UNIT};

verus! {

/// Length of the feature vector an agent's policy reads.
pub const FEATURE_SIZE: usize = 14;

/// Width of the hidden layer.
pub const HIDDEN_SIZE: usize = 16;

/// Bound on either layer's width.
pub const MAX_LAYER: usize = 1024;

/// Bound on the magnitude of a policy input.
pub const INPUT_LIMIT: i64 = 0x1_0000_0000;

/// What a policy is: its shape and its four parameter blocks.
pub struct PolicyModel {
    pub input_size: nat,
    pub hidden_size: nat,
    pub w1: Seq<i64>,
    pub b1: Seq<i64>,
    pub w2: Seq<i64>,
    pub b2: Seq<i64>,
}

/// A feed-forward network `input -> hidden -> 2`. Row `h` of `w1` holds the
/// weights of hidden unit `h`; row `o` of `w2` those of output `o`.
#[derive(Clone, Debug)]
pub struct NnPolicy {
    input_size: usize,
    hidden_size: usize,
    w1: Vec<i64>,
    b1: Vec<i64>,
    w2: Vec<i64>,
    b2: Vec<i64>,
}

impl View for NnPolicy {
    type V = PolicyModel;

    closed spec fn view(&self) -> PolicyModel {
        PolicyModel {
            input_size: self.input_size as nat,
            hidden_size: self.hidden_size as nat,
            w1: self.w1@,
            b1: self.b1@,
            w2: self.w2@,
            b2: self.b2@,
        }
    }
}

/// Number of parameters of a network of the given shape.
pub open spec fn param_count_of(input_size: nat, hidden_size: nat) -> nat {
    input_size * hidden_size + hidden_size + hidden_size * 2 + 2
}

impl PolicyModel {
    /// The blocks have the sizes the shape asks for.
    pub open spec fn wf(self) -> bool {
        &&& 0 < self.input_size <= MAX_LAYER
        &&& 0 < self.hidden_size <= MAX_LAYER
        &&& self.w1.len() == self.input_size * self.hidden_size
        &&& self.b1.len() == self.hidden_size
        &&& self.w2.len() == self.hidden_size * 2
        &&& self.b2.len() == 2
    }

    /// The flattened parameters, in the order `w1, b1, w2, b2`.
    pub open spec fn params(self) -> Seq<i64> {
        self.w1 + self.b1 + self.w2 + self.b2
    }

    /// Pre-activation of hidden unit `h` on input `x`, in fixed point.
    pub open spec fn hidden_pre(self, x: Seq<i64>, h: int) -> int {
        tdiv(self.b1[h] * ONE + dot(self.w1, h * self.input_size, x, self.input_size), ONE as int)
    }

    /// The hidden layer's activations on input `x`.
    pub open spec fn hidden(self, x: Seq<i64>) -> Seq<i64> {
        Seq::new(self.hidden_size, |h: int| tanh_fx_spec(self.hidden_pre(x, h)) as i64)
    }

    /// Output `o` on input `x`.
    pub open spec fn output(self, x: Seq<i64>, o: int) -> int {
        let hs = self.hidden(x);
        tanh_fx_spec(
            tdiv(self.b2[o] * ONE + dot(self.w2, o * self.hidden_size, hs, self.hidden_size), ONE as int),
        )
    }

    /// The network's output on input `x`: a steering direction in `[-1, 1]^2`.
    pub open spec fn forward(self, x: Seq<i64>) -> Vec2f {
        Vec2f { x: self.output(x, 0) as i64, y: self.output(x, 1) as i64 }
    }
}

/// The model of a network of the given shape read from `params`.
pub open spec fn model_from_params(input_size: nat, hidden_size: nat, params: Seq<i64>) -> PolicyModel {
    let a = input_size * hidden_size;
    let b = a + hidden_size;
    let c = b + hidden_size * 2;
    PolicyModel {
        input_size,
        hidden_size,
        w1: params.subrange(0, a as int),
        b1: params.subrange(a as int, b as int),
        w2: params.subrange(b as int, c as int),
        b2: params.subrange(c as int, c as int + 2),
    }
}

/// `sum_{k < n} w[row + k] * x[k]`.
pub open spec fn dot(w: Seq<i64>, row: int, x: Seq<i64>, n: nat) -> int
    decreases n,
{
    if n == 0 {
        0
    } else {
        dot(w, row, x, (n - 1) as nat) + w[row + n - 1] * x[n - 1]
    }
}

/// Bound on one product of a weight and an input.
pub const PRODUCT_LIMIT: i128 = 0x8000_0000_0000_0000_0000_0000;

/// Multiply-accumulate of one weight row against the input.
fn dot_row(w: &Vec<i64>, row: usize, x: &Vec<i64>, n: usize) -> (r: i128)
    requires
        row + n <= w.len(),
        n <= x.len(),
        n <= MAX_LAYER,
        forall|k: int| 0 <= k < n ==> -INPUT_LIMIT <= #[trigger] x@[k] <= INPUT_LIMIT,
    ensures
        r == dot(w@, row as int, x@, n as nat),
        -(n as int) * PRODUCT_LIMIT <= r <= (n as int) * PRODUCT_LIMIT,
{
    let mut acc: i128 = 0;
    let mut k: usize = 0;
    while k < n
        invariant
            k <= n,
            row + n <= w.len(),
            n <= x.len(),
            n <= MAX_LAYER,
            forall|j: int| 0 <= j < n ==> -INPUT_LIMIT <= #[trigger] x@[j] <= INPUT_LIMIT,
            acc == dot(w@, row as int, x@, k as nat),
            -(k as int) * PRODUCT_LIMIT <= acc <= (k as int) * PRODUCT_LIMIT,
        decreases n - k,
    {
        let a = w[row + k] as i128;
        let b = x[k] as i128;
        assert(-PRODUCT_LIMIT <= a * b <= PRODUCT_LIMIT) by (nonlinear_arith)
            requires
                i64::MIN <= a <= i64::MAX,
                -INPUT_LIMIT <= b <= INPUT_LIMIT;
        assert(-(k as int) * PRODUCT_LIMIT - PRODUCT_LIMIT == -((k + 1) as int) * PRODUCT_LIMIT)
            by (nonlinear_arith);
        assert((k as int) * PRODUCT_LIMIT + PRODUCT_LIMIT == ((k + 1) as int) * PRODUCT_LIMIT)
            by (nonlinear_arith);
        assert((k + 1) as int * PRODUCT_LIMIT <= 1025 * PRODUCT_LIMIT) by (nonlinear_arith)
            requires k < n, n <= MAX_LAYER;
        acc = acc + a * b;
        k = k + 1;
    }
    acc
}

/// A unit's activation from its bias and weighted input sum.
fn activate(bias: i64, sum: i128, n: usize) -> (r: i64)
    requires
        n <= MAX_LAYER,
        -(n as int) * PRODUCT_LIMIT <= sum <= (n as int) * PRODUCT_LIMIT,
    ensures
        r == tanh_fx_spec(tdiv(bias * ONE + sum, ONE as int)),
        -ONE <= r <= ONE,
{
    assert((n as int) * PRODUCT_LIMIT <= 1024 * PRODUCT_LIMIT) by (nonlinear_arith)
        requires n <= MAX_LAYER;
    assert(-0x8000_0000_0000_0000_0000_0000_0000 <= (bias as int) * ONE <= 0x8000_0000_0000_0000_0000_0000_0000)
        by (nonlinear_arith);
    let acc: i128 = (bias as i128) * (ONE as i128) + sum;
    let q = div_i128(acc, ONE as i128);
    let c: i128 = if q < -(TANH_KNEE as i128) {
        -(TANH_KNEE as i128)
    } else if q > TANH_KNEE as i128 {
        TANH_KNEE as i128
    } else {
        q
    };
    assert(clamp_spec(c as int, -TANH_KNEE, TANH_KNEE as int) == clamp_spec(q as int, -TANH_KNEE, TANH_KNEE as int));
    tanh_fx(c as i64)
}

impl NnPolicy {
    /// A network of the given shape with every parameter zero.
    pub fn new(input_size: usize, hidden_size: usize) -> (r: NnPolicy)
        requires
            0 < input_size <= MAX_LAYER,
            0 < hidden_size <= MAX_LAYER,
        ensures
            r@.wf(),
            r@.input_size == input_size,
            r@.hidden_size == hidden_size,
            forall|k: int| 0 <= k < r@.params().len() ==> #[trigger] r@.params()[k] == 0,
    {
        assert(input_size * hidden_size <= MAX_LAYER * MAX_LAYER) by (nonlinear_arith)
            requires input_size <= MAX_LAYER, hidden_size <= MAX_LAYER;
        let r = NnPolicy {
            input_size,
            hidden_size,
            w1: vec![0i64; input_size * hidden_size],
            b1: vec![0i64; hidden_size],
            w2: vec![0i64; hidden_size * 2],
            b2: vec![0i64; 2],
        };
        assert forall|k: int| 0 <= k < r@.params().len() implies #[trigger] r@.params()[k] == 0 by {
            let a = r.w1@.len() as int;
            let b = a + r.b1@.len();
            let c = b + r.w2@.len();
            if k < a {
            } else if k < b {
                assert(r@.params()[k] == r.b1@[k - a]);
            } else if k < c {
                assert(r@.params()[k] == r.w2@[k - b]);
            } else {
                assert(r@.params()[k] == r.b2@[k - c]);
            }
        }
        r
    }

    pub open spec fn wf(&self) -> bool {
        self@.wf()
    }

    pub fn input_size(&self) -> (r: usize)
        ensures
            r == self@.input_size,
    {
        self.input_size
    }

    pub fn hidden_size(&self) -> (r: usize)
        ensures
            r == self@.hidden_size,
    {
        self.hidden_size
    }

    /// Evaluate the network on `input`, leaving the hidden activations in
    /// `hidden`.
    pub fn forward_into(&self, input: &Vec<i64>, hidden: &mut Vec<i64>) -> (r: Vec2f)
        requires
            self.wf(),
            input.len() == self@.input_size,
            old(hidden).len() == self@.hidden_size,
            forall|k: int| 0 <= k < input.len() ==> -INPUT_LIMIT <= #[trigger] input@[k] <= INPUT_LIMIT,
        ensures
            final(hidden)@ == self@.hidden(input@),
            r == self@.forward(input@),
            -ONE <= r.x <= ONE,
            -ONE <= r.y <= ONE,
    {
        let n_in = self.input_size;
        let n_hid = self.hidden_size;
        let mut h: usize = 0;
        while h < n_hid
            invariant
                self.wf(),
                n_in == self@.input_size,
                n_hid == self@.hidden_size,
                h <= n_hid,
                input.len() == n_in,
                hidden.len() == n_hid,
                forall|k: int| 0 <= k < input.len() ==> -INPUT_LIMIT <= #[trigger] input@[k] <= INPUT_LIMIT,
                forall|j: int| 0 <= j < h ==> #[trigger] hidden@[j] == self@.hidden(input@)[j],
            decreases n_hid - h,
        {
            assert(h * n_in + n_in <= n_hid * n_in) by (nonlinear_arith)
                requires h < n_hid;
            assert(n_hid * n_in == n_in * n_hid) by (nonlinear_arith);
            assert(self.w1.len() == n_in * n_hid);
            assert(h * n_in <= self.w1.len());
            let row = h * n_in;
            let sum = dot_row(&self.w1, row, input, n_in);
            let v = activate(self.b1[h], sum, n_in);
            hidden.set(h, v);
            h = h + 1;
        }
        assert(hidden@ == self@.hidden(input@));
        let ghost hs = self@.hidden(input@);
        assert forall|k: int| 0 <= k < hidden.len() implies -INPUT_LIMIT <= #[trigger] hidden@[k] <= INPUT_LIMIT by {
            let v = tanh_fx_spec(self@.hidden_pre(input@, k));
            crate::fixed::lemma_tanh_fx_range(self@.hidden_pre(input@, k));
        }
        let s0 = dot_row(&self.w2, 0, hidden, n_hid);
        let o0 = activate(self.b2[0], s0, n_hid);
        let s1 = dot_row(&self.w2, n_hid, hidden, n_hid);
        let o1 = activate(self.b2[1], s1, n_hid);
        Vec2f { x: o0, y: o1 }
    }
}


proof fn lemma_param_sizes(m: PolicyModel)
    requires
        m.wf(),
    ensures
        m.w1.len() <= MAX_LAYER * MAX_LAYER,
        m.params().len() <= 2 * MAX_LAYER * MAX_LAYER,
{
    assert(m.input_size * m.hidden_size <= MAX_LAYER * MAX_LAYER) by (nonlinear_arith)
        requires m.input_size <= MAX_LAYER, m.hidden_size <= MAX_LAYER;
}

/// Append `src` to `dst`.
fn extend_from(dst: &mut Vec<i64>, src: &Vec<i64>)
    requires
        old(dst).len() + src.len() <= usize::MAX,
    ensures
        final(dst)@ == old(dst)@ + src@,
{
    let ghost start = dst@;
    let mut k: usize = 0;
    while k < src.len()
        invariant
            k <= src.len(),
            start.len() + src.len() <= usize::MAX,
            dst@ == start + src@.subrange(0, k as int),
        decreases src.len() - k,
    {
        dst.push(src[k]);
        k = k + 1;
        assert(src@.subrange(0, k as int) == src@.subrange(0, k - 1).push(src@[k - 1]));
    }
    assert(src@.subrange(0, src.len() as int) == src@);
}

/// The `n` values of `params` from `start` on, as a new vector.
fn slice_of(params: &Vec<i64>, start: usize, n: usize) -> (r: Vec<i64>)
    requires
        start + n <= params.len(),
    ensures
        r@ == params@.subrange(start as int, start + n),
{
    let mut r: Vec<i64> = Vec::new();
    let mut k: usize = 0;
    while k < n
        invariant
            k <= n,
            start + n <= params.len(),
            r@ == params@.subrange(start as int, start + k),
        decreases n - k,
    {
        r.push(params[start + k]);
        k = k + 1;
    }
    r
}

/// One random parameter drawn from stream state `s`: `(2u - 1) * scale`
/// for the unit draw `u` of `s`.
pub open spec fn random_param(s: u32, scale: i64) -> i64 {
    tdiv((2 * unit_of(s) - UNIT) * scale, ONE as int) as i64
}

/// Bound on the scale of random initialisation.
pub const MAX_INIT_SCALE: i64 = 0x1_0000_0000;

pub proof fn lemma_lcg_iter_add(s: u32, a: nat, b: nat)
    ensures
        lcg_iter(lcg_iter(s, a), b) == lcg_iter(s, a + b),
    decreases b,
{
    if b > 0 {
        lemma_lcg_iter_add(s, a, (b - 1) as nat);
    }
}

/// Overwrite every entry of `v` with a random parameter, in order.
fn fill_random(v: &mut Vec<i64>, rng: &mut Lcg, scale: i64)
    requires
        0 <= scale <= MAX_INIT_SCALE,
    ensures
        final(v)@.len() == old(v)@.len(),
        final(rng).state == lcg_iter(old(rng).state, old(v)@.len()),
        forall|k: int|
            0 <= k < old(v)@.len() ==> #[trigger] final(v)@[k] == random_param(
                lcg_iter(old(rng).state, (k + 1) as nat),
                scale,
            ),
{
    let ghost s0 = rng.state;
    let mut k: usize = 0;
    while k < v.len()
        invariant
            0 <= scale <= MAX_INIT_SCALE,
            k <= v.len(),
            v.len() == old(v).len(),
            rng.state == lcg_iter(s0, k as nat),
            forall|j: int| 0 <= j < k ==> #[trigger] v@[j] == random_param(lcg_iter(s0, (j + 1) as nat), scale),
        decreases v.len() - k,
    {
        let u = rng.next_unit();
        let centered: i64 = 2 * (u as i64) - (UNIT as i64);
        assert(-ONE * MAX_INIT_SCALE <= centered * scale <= ONE * MAX_INIT_SCALE) by (nonlinear_arith)
            requires -ONE <= centered <= ONE, 0 <= scale <= MAX_INIT_SCALE;
        let w = crate::fixed::div_i64(centered * scale, ONE);
        v.set(k, w);
        k = k + 1;
    }
}

impl NnPolicy {
    /// Number of parameters.
    pub fn param_count(&self) -> (r: usize)
        requires
            self.wf(),
        ensures
            r == self@.params().len(),
            r == param_count_of(self@.input_size, self@.hidden_size),
    {
        proof { lemma_param_sizes(self@); }
        self.w1.len() + self.b1.len() + self.w2.len() + self.b2.len()
    }

    /// The parameters flattened in the order `w1, b1, w2, b2`.
    pub fn to_vec(&self) -> (r: Vec<i64>)
        requires
            self.wf(),
        ensures
            r@ == self@.params(),
            r@.len() == param_count_of(self@.input_size, self@.hidden_size),
    {
        proof { lemma_param_sizes(self@); }
        let mut r: Vec<i64> = Vec::new();
        extend_from(&mut r, &self.w1);
        extend_from(&mut r, &self.b1);
        extend_from(&mut r, &self.w2);
        extend_from(&mut r, &self.b2);
        assert(Seq::<i64>::empty() + self.w1@ == self.w1@);
        r
    }

    /// The network of the given shape whose flattened parameters are
    /// `params`; the length must be exactly the shape's parameter count.
    pub fn from_vec(input_size: usize, hidden_size: usize, params: &Vec<i64>) -> (r: NnPolicy)
        requires
            0 < input_size <= MAX_LAYER,
            0 < hidden_size <= MAX_LAYER,
            params.len() == param_count_of(input_size as nat, hidden_size as nat),
        ensures
            r@ == model_from_params(input_size as nat, hidden_size as nat, params@),
            r@.wf(),
            r@.params() == params@,
    {
        assert(input_size * hidden_size <= MAX_LAYER * MAX_LAYER) by (nonlinear_arith)
            requires input_size <= MAX_LAYER, hidden_size <= MAX_LAYER;
        let w1_len = input_size * hidden_size;
        let b1_len = hidden_size;
        let w2_len = hidden_size * 2;
        let w1 = slice_of(params, 0, w1_len);
        let b1 = slice_of(params, w1_len, b1_len);
        let w2 = slice_of(params, w1_len + b1_len, w2_len);
        let b2 = slice_of(params, w1_len + b1_len + w2_len, 2);
        let r = NnPolicy { input_size, hidden_size, w1, b1, w2, b2 };
        assert(r@.params() =~= params@);
        r
    }

    /// A copy with the same shape and parameters.
    pub fn duplicate(&self) -> (r: NnPolicy)
        ensures
            r@ == self@,
    {
        let mut w1: Vec<i64> = Vec::new();
        extend_from(&mut w1, &self.w1);
        let mut b1: Vec<i64> = Vec::new();
        extend_from(&mut b1, &self.b1);
        let mut w2: Vec<i64> = Vec::new();
        extend_from(&mut w2, &self.w2);
        let mut b2: Vec<i64> = Vec::new();
        extend_from(&mut b2, &self.b2);
        assert(w1@ =~= self.w1@);
        assert(b1@ =~= self.b1@);
        assert(w2@ =~= self.w2@);
        assert(b2@ =~= self.b2@);
        NnPolicy { input_size: self.input_size, hidden_size: self.hidden_size, w1, b1, w2, b2 }
    }

    /// Fill every parameter with a uniform draw from `[-scale, scale]`, in
    /// the order `w1, b1, w2, b2`, one draw each.
    pub fn randomize(&mut self, rng: &mut Lcg, scale: i64)
        requires
            old(self).wf(),
            0 <= scale <= MAX_INIT_SCALE,
        ensures
            final(self)@.wf(),
            final(self)@.input_size == old(self)@.input_size,
            final(self)@.hidden_size == old(self)@.hidden_size,
            final(self)@.params().len() == old(self)@.params().len(),
            final(rng).state == lcg_iter(old(rng).state, old(self)@.params().len()),
            forall|k: int|
                0 <= k < final(self)@.params().len() ==> #[trigger] final(self)@.params()[k]
                    == random_param(lcg_iter(old(rng).state, (k + 1) as nat), scale),
    {
        let ghost s0 = rng.state;
        let ghost a = self.w1@.len();
        let ghost b = a + self.b1@.len();
        let ghost c = b + self.w2@.len();
        fill_random(&mut self.w1, rng, scale);
        fill_random(&mut self.b1, rng, scale);
        fill_random(&mut self.w2, rng, scale);
        fill_random(&mut self.b2, rng, scale);
        proof {
            lemma_lcg_iter_add(s0, a, self.b1@.len());
            lemma_lcg_iter_add(s0, b, self.w2@.len());
            lemma_lcg_iter_add(s0, c, self.b2@.len());
            let ps = self@.params();
            assert forall|k: int| 0 <= k < ps.len() implies #[trigger] ps[k]
                == random_param(lcg_iter(s0, (k + 1) as nat), scale) by {
                if k < a {
                } else if k < b {
                    assert(ps[k] == self.b1@[k - a]);
                    lemma_lcg_iter_add(s0, a, (k - a + 1) as nat);
                } else if k < c {
                    assert(ps[k] == self.w2@[k - b]);
                    lemma_lcg_iter_add(s0, b, (k - b + 1) as nat);
                } else {
                    assert(ps[k] == self.b2@[k - c]);
                    lemma_lcg_iter_add(s0, c, (k - c + 1) as nat);
                }
            }
        }
    }
}

/// Flattening a well-formed network and reading it back with the same
/// shape gives the same network, so the same output on every input.
pub proof fn lemma_policy_round_trip(p: PolicyModel)
    requires
        p.wf(),
    ensures
        model_from_params(p.input_size, p.hidden_size, p.params()) == p,
        forall|x: Seq<i64>|
            #[trigger] model_from_params(p.input_size, p.hidden_size, p.params()).forward(x)
                == p.forward(x),
{
    let q = model_from_params(p.input_size, p.hidden_size, p.params());
    let a = p.w1.len() as int;
    let b = a + p.b1.len();
    let c = b + p.w2.len();
    assert(q.w1 =~= p.w1);
    assert(q.b1 =~= p.b1);
    assert(q.w2 =~= p.w2);
    assert(q.b2 =~= p.b2);
}

} // verus!
