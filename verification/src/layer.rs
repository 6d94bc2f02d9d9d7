//! A fully-connected layer over fixed-point values.

use vstd::prelude::*;
use vstd::arithmetic::div_mod::{
    lemma_div_is_ordered, lemma_div_pos_is_pos, lemma_fundamental_div_mod,
    lemma_div_multiples_vanish, lemma_div_multiples_vanish_fancy, lemma_mod_bound,
};
use crate::fixed::{
    SCALE, fx_add, fx_mul, fx_add_spec, fx_mul_spec,
};
use crate::rng::rand_range_i64;
use crate::GaError;

verus! {

/// The mathematical value of a fixed-point vector.
pub open spec fn ints(s: Seq<i64>) -> Seq<int> {
    s.map_values(|x: i64| x as int)
}

/// The mathematical value of a fixed-point matrix.
pub open spec fn rows(m: Seq<Vec<i64>>) -> Seq<Seq<int>> {
    m.map_values(|v: Vec<i64>| ints(v@))
}

/// Saturating fixed-point dot product, accumulated left to right.
pub open spec fn dot_spec(v1: Seq<int>, v2: Seq<int>) -> int
    decreases v1.len(),
{
    if v1.len() == 0 || v2.len() == 0 {
        0
    } else {
        fx_add_spec(
            dot_spec(v1.drop_last(), v2.drop_last()),
            fx_mul_spec(v1.last(), v2.last()),
        )
    }
}

/// Pre-activation value of one neuron: dot of its weight row with the
/// inputs, plus its bias.
pub open spec fn neuron_spec(row: Seq<int>, inputs: Seq<int>, bias: int) -> int {
    fx_add_spec(dot_spec(row, inputs), bias)
}

/// The full forward pass of a layer: one pre-activation value per weight row.
pub open spec fn forward_spec(weights: Seq<Seq<int>>, biases: Seq<int>, inputs: Seq<int>) -> Seq<
    int,
> {
    Seq::new(weights.len(), |i: int| neuron_spec(weights[i], inputs, biases[i]))
}

/// Rectifier: negative values become zero, the rest pass through.
pub open spec fn relu_spec(s: Seq<int>) -> Seq<int> {
    s.map_values(|x: int| if x < 0 { 0int } else { x })
}

/// Sum of a sequence of integers.
pub open spec fn sum_spec(s: Seq<int>) -> int
    decreases s.len(),
{
    if s.len() == 0 {
        0
    } else {
        sum_spec(s.drop_last()) + s.last()
    }
}

/// Greatest value of a non-empty sequence.
pub open spec fn max_spec(s: Seq<int>) -> int
    decreases s.len(),
{
    if s.len() <= 1 {
        s[0]
    } else {
        let m = max_spec(s.drop_last());
        if s.last() > m {
            s.last()
        } else {
            m
        }
    }
}

/// One fixed-point squaring step.
pub open spec fn sq_step(r: int) -> int {
    (r * r) / (SCALE as int)
}

/// `k` squaring steps applied to `r`.
pub open spec fn sq_iter(r: int, k: nat) -> int
    decreases k,
{
    if k == 0 {
        r
    } else {
        sq_iter(sq_step(r), (k - 1) as nat)
    }
}

/// Fixed-point exponential for non-positive arguments: the base
/// `1 + d / 1024` raised to the 1024th power by ten squarings, floored at
/// zero once the base would leave the unit interval.
pub open spec fn exp_fx_spec(d: int) -> int {
    if d >= 0 {
        SCALE as int
    } else {
        let t = (-d) / 1024;
        if t >= SCALE as int {
            0
        } else {
            sq_iter(SCALE as int - t, 10)
        }
    }
}

/// The normalization step of softmax: exponentiate each output relative to
/// the greatest one, then divide each exponential by their sum.
pub open spec fn softmax_spec(s: Seq<int>) -> Seq<int> {
    let m = max_spec(s);
    let e = Seq::new(s.len(), |i: int| exp_fx_spec(s[i] - m));
    let t = sum_spec(e);
    Seq::new(s.len(), |i: int| (e[i] * (SCALE as int)) / t)
}

/// The forward pass is a pure function of the weights, biases and inputs:
/// two layers holding the same parameters produce, on the same inputs, the
/// same outputs of length `n_neurons`, whatever was computed before.
pub proof fn lemma_forward_pure(
    w1: Seq<Seq<int>>,
    b1: Seq<int>,
    w2: Seq<Seq<int>>,
    b2: Seq<int>,
    inp: Seq<int>,
)
    requires
        w1 == w2,
        b1 == b2,
    ensures
        forward_spec(w1, b1, inp) == forward_spec(w2, b2, inp),
        forward_spec(w1, b1, inp).len() == w1.len(),
{
}

proof fn lemma_sq_step_range(r: int)
    requires
        0 <= r <= SCALE as int,
    ensures
        0 <= sq_step(r) <= SCALE as int,
        r == SCALE as int ==> sq_step(r) == SCALE as int,
{
    let s = SCALE as int;
    assert(0 <= r * r <= s * s) by (nonlinear_arith)
        requires
            0 <= r <= s,
    ;
    lemma_div_pos_is_pos(r * r, s);
    lemma_div_is_ordered(r * r, s * s, s);
    lemma_div_multiples_vanish(s, s);
}

proof fn lemma_sq_iter_range(r: int, k: nat)
    requires
        0 <= r <= SCALE as int,
    ensures
        0 <= sq_iter(r, k) <= SCALE as int,
        r == SCALE as int ==> sq_iter(r, k) == SCALE as int,
    decreases k,
{
    if k > 0 {
        lemma_sq_step_range(r);
        lemma_sq_iter_range(sq_step(r), (k - 1) as nat);
    }
}

proof fn lemma_exp_range(d: int)
    ensures
        0 <= exp_fx_spec(d) <= SCALE as int,
        d == 0 ==> exp_fx_spec(d) == SCALE as int,
{
    if d < 0 {
        let t = (-d) / 1024;
        lemma_div_pos_is_pos(-d, 1024);
        if t < SCALE as int {
            lemma_sq_iter_range(SCALE as int - t, 10);
        }
    }
}

proof fn lemma_sum_nonneg(s: Seq<int>)
    requires
        forall|k: int| 0 <= k < s.len() ==> 0 <= #[trigger] s[k],
    ensures
        sum_spec(s) >= 0,
    decreases s.len(),
{
    if s.len() > 0 {
        lemma_sum_nonneg(s.drop_last());
    }
}

proof fn lemma_sum_at_least_elem(s: Seq<int>, j: int)
    requires
        forall|k: int| 0 <= k < s.len() ==> 0 <= #[trigger] s[k],
        0 <= j < s.len(),
    ensures
        sum_spec(s) >= s[j],
    decreases s.len(),
{
    if j == s.len() - 1 {
        lemma_sum_nonneg(s.drop_last());
    } else {
        lemma_sum_at_least_elem(s.drop_last(), j);
    }
}

/// Floor division distributes over a sum of non-negatives with a loss of at
/// most one unit.
proof fn lemma_div_add(a: int, b: int, t: int)
    requires
        t >= 1,
        a >= 0,
        b >= 0,
    ensures
        a / t + b / t <= (a + b) / t <= a / t + b / t + 1,
{
    lemma_fundamental_div_mod(a, t);
    lemma_fundamental_div_mod(b, t);
    lemma_mod_bound(a, t);
    lemma_mod_bound(b, t);
    let qa = a / t;
    let qb = b / t;
    let rem = a % t + b % t;
    assert(a + b == t * (qa + qb) + rem) by (nonlinear_arith)
        requires
            a == t * qa + a % t,
            b == t * qb + b % t,
            rem == a % t + b % t,
    ;
    if rem < t {
        lemma_div_multiples_vanish_fancy(qa + qb, rem, t);
    } else {
        assert(a + b == t * (qa + qb + 1) + (rem - t)) by (nonlinear_arith)
            requires
                a + b == t * (qa + qb) + rem,
        ;
        lemma_div_multiples_vanish_fancy(qa + qb + 1, rem - t, t);
    }
}

/// Summing the elementwise floor quotients loses less than one unit per
/// element against the floor quotient of the sum.
proof fn lemma_sum_div(g: Seq<int>, t: int)
    requires
        t >= 1,
        forall|k: int| 0 <= k < g.len() ==> 0 <= #[trigger] g[k],
    ensures
        sum_spec(Seq::new(g.len(), |i: int| g[i] / t)) <= sum_spec(g) / t,
        g.len() >= 1 ==> sum_spec(g) / t <= sum_spec(Seq::new(g.len(), |i: int| g[i] / t))
            + g.len() - 1,
    decreases g.len(),
{
    let q = Seq::new(g.len(), |i: int| g[i] / t);
    if g.len() == 0 {
        assert(sum_spec(q) == 0);
        assert(sum_spec(g) == 0);
        assert(0int / t == 0) by {
            lemma_div_multiples_vanish(0, t);
        }
    } else if g.len() == 1 {
        assert(g.drop_last().len() == 0);
        assert(q.drop_last().len() == 0);
        assert(sum_spec(g.drop_last()) == 0);
        assert(sum_spec(q.drop_last()) == 0);
        assert(sum_spec(g) == g[0]);
        assert(sum_spec(q) == q[0]);
    } else {
        let g2 = g.drop_last();
        let q2 = Seq::new(g2.len(), |i: int| g2[i] / t);
        lemma_sum_div(g2, t);
        assert(q.drop_last() =~= q2);
        lemma_sum_nonneg(g2);
        lemma_div_add(sum_spec(g2), g.last(), t);
        assert(sum_spec(g) == sum_spec(g2) + g.last());
        assert(sum_spec(q) == sum_spec(q2) + g.last() / t);
    }
}

/// The elements of a normalized output lie in `[0, SCALE]`, and their sum
/// lies within one unit per element below `SCALE`.
pub proof fn lemma_softmax_bounds(s: Seq<int>)
    requires
        s.len() >= 1,
    ensures
        softmax_spec(s).len() == s.len(),
        forall|i: int| 0 <= i < s.len() ==> 0 <= #[trigger] softmax_spec(s)[i] <= SCALE as int,
        SCALE as int - s.len() < sum_spec(softmax_spec(s)) <= SCALE as int,
{
    let sc = SCALE as int;
    let m = max_spec(s);
    let e = Seq::new(s.len(), |i: int| exp_fx_spec(s[i] - m));
    let t = sum_spec(e);
    let out = softmax_spec(s);
    assert forall|i: int| 0 <= i < e.len() implies 0 <= #[trigger] e[i] <= sc by {
        lemma_exp_range(s[i] - m);
    }
    lemma_max_is_elem(s);
    let jm = choose|j: int| 0 <= j < s.len() && s[j] == m;
    assert(e[jm] == sc) by {
        lemma_exp_range(0);
    }
    lemma_sum_at_least_elem(e, jm);
    assert(t >= sc);
    assert forall|i: int| 0 <= i < s.len() implies 0 <= #[trigger] out[i] <= sc by {
        assert(out[i] == (e[i] * sc) / t);
        lemma_sum_at_least_elem(e, i);
        assert(0 <= e[i] * sc <= t * sc) by (nonlinear_arith)
            requires
                0 <= e[i] <= t,
                sc > 0,
        ;
        lemma_div_pos_is_pos(e[i] * sc, t);
        lemma_div_is_ordered(e[i] * sc, t * sc, t);
        lemma_div_multiples_vanish(sc, t);
    }
    let g = Seq::new(s.len(), |i: int| e[i] * sc);
    assert forall|k: int| 0 <= k < g.len() implies 0 <= #[trigger] g[k] by {
        assert(0 <= e[k] * sc) by (nonlinear_arith)
            requires
                0 <= e[k],
                sc > 0,
        ;
    }
    lemma_sum_scale(e, sc);
    assert(sum_spec(g) == t * sc);
    lemma_sum_div(g, t);
    let q = Seq::new(g.len(), |i: int| g[i] / t);
    assert(q =~= out);
    assert(sum_spec(g) / t == sc) by {
        lemma_div_multiples_vanish(sc, t);
    }
}

/// The greatest value of a non-empty sequence is one of its elements, and
/// no element exceeds it.
pub proof fn lemma_max_is_elem(s: Seq<int>)
    requires
        s.len() >= 1,
    ensures
        exists|j: int| 0 <= j < s.len() && s[j] == max_spec(s),
        forall|i: int| 0 <= i < s.len() ==> #[trigger] s[i] <= max_spec(s),
    decreases s.len(),
{
    if s.len() == 1 {
        assert(s[0] == max_spec(s));
    } else {
        lemma_max_is_elem(s.drop_last());
        let m2 = max_spec(s.drop_last());
        if s.last() > m2 {
            assert(s[s.len() - 1] == max_spec(s));
        } else {
            let j2 = choose|j: int| 0 <= j < s.len() - 1 && s.drop_last()[j] == m2;
            assert(s[j2] == max_spec(s));
        }
        assert forall|i: int| 0 <= i < s.len() implies #[trigger] s[i] <= max_spec(s) by {
            if i < s.len() - 1 {
                assert(s.drop_last()[i] == s[i]);
            }
        }
    }
}

/// Scaling each element scales the sum.
proof fn lemma_sum_scale(e: Seq<int>, c: int)
    ensures
        sum_spec(Seq::new(e.len(), |i: int| e[i] * c)) == sum_spec(e) * c,
    decreases e.len(),
{
    let g = Seq::new(e.len(), |i: int| e[i] * c);
    if e.len() == 0 {
        assert(sum_spec(g) == 0);
    } else {
        let e2 = e.drop_last();
        lemma_sum_scale(e2, c);
        assert(g.drop_last() =~= Seq::new(e2.len(), |i: int| e2[i] * c));
        assert(sum_spec(g) == sum_spec(e2) * c + e.last() * c);
        assert(sum_spec(e2) * c + e.last() * c == (sum_spec(e2) + e.last()) * c)
            by (nonlinear_arith);
    }
}

pub struct Layer {
    pub n_inputs: usize,
    pub n_neurons: usize,
    pub weights: Vec<Vec<i64>>,
    pub biases: Vec<i64>,
    pub outputs: Vec<i64>,
}

impl Layer {
    /// Shape invariant: one weight row per neuron, one bias per neuron,
    /// every row as wide as the input.
    pub open spec fn wf(&self) -> bool {
        &&& self.weights@.len() == self.n_neurons
        &&& forall|i: int|
            0 <= i < self.weights@.len() ==> (#[trigger] self.weights@[i])@.len()
                == self.n_inputs
        &&& self.biases@.len() == self.n_neurons
    }

    fn dot(v1: &Vec<i64>, v2: &Vec<i64>) -> (r: i64)
        requires
            v1@.len() == v2@.len(),
        ensures
            r as int == dot_spec(ints(v1@), ints(v2@)),
    {
        let mut sum: i64 = 0;
        let mut i: usize = 0;
        while i < v1.len()
            invariant
                0 <= i <= v1@.len(),
                v1@.len() == v2@.len(),
                sum as int == dot_spec(ints(v1@).take(i as int), ints(v2@).take(i as int)),
            decreases v1@.len() - i,
        {
            sum = fx_add(sum, fx_mul(v1[i], v2[i]));
            proof {
                let s1 = ints(v1@).take(i + 1);
                let s2 = ints(v2@).take(i + 1);
                assert(s1.drop_last() =~= ints(v1@).take(i as int));
                assert(s2.drop_last() =~= ints(v2@).take(i as int));
                assert(s1.last() == v1@[i as int] as int);
                assert(s2.last() == v2@[i as int] as int);
            }
            i += 1;
        }
        proof {
            assert(ints(v1@).take(v1@.len() as int) =~= ints(v1@));
            assert(ints(v2@).take(v2@.len() as int) =~= ints(v2@));
        }
        sum
    }

    /// A fresh layer with each weight and bias the fixed-point product of a
    /// uniform draw from [-5, 5) and a uniform draw from [0, 1].
    pub fn new(n_inputs: usize, n_neurons: usize) -> (l: Layer)
        ensures
            l.wf(),
            l.n_inputs == n_inputs,
            l.n_neurons == n_neurons,
            l.outputs@.len() == 0,
    {
        let mut weights: Vec<Vec<i64>> = Vec::new();
        let mut r: usize = 0;
        while r < n_neurons
            invariant
                weights@.len() == r,
                r <= n_neurons,
                forall|i: int|
                    0 <= i < weights@.len() ==> (#[trigger] weights@[i])@.len() == n_inputs,
            decreases n_neurons - r,
        {
            let mut row: Vec<i64> = Vec::new();
            let mut c: usize = 0;
            while c < n_inputs
                invariant
                    row@.len() == c,
                    c <= n_inputs,
                decreases n_inputs - c,
            {
                let a = rand_range_i64(-5 * SCALE, 5 * SCALE);
                let b = rand_range_i64(0, SCALE + 1);
                row.push(fx_mul(a, b));
                c += 1;
            }
            weights.push(row);
            r += 1;
        }
        let mut biases: Vec<i64> = Vec::new();
        let mut r2: usize = 0;
        while r2 < n_neurons
            invariant
                biases@.len() == r2,
                r2 <= n_neurons,
            decreases n_neurons - r2,
        {
            let a = rand_range_i64(-5 * SCALE, 5 * SCALE);
            let b = rand_range_i64(0, SCALE + 1);
            biases.push(fx_mul(a, b));
            r2 += 1;
        }
        Layer { n_inputs, n_neurons, weights, biases, outputs: Vec::new() }
    }

    /// The deterministic constructor used by crossover.
    pub fn new_with_values(
        n_inputs: usize,
        n_neurons: usize,
        weights: Vec<Vec<i64>>,
        biases: Vec<i64>,
    ) -> (l: Layer)
        requires
            weights@.len() == n_neurons,
            forall|i: int| 0 <= i < weights@.len() ==> (#[trigger] weights@[i])@.len() == n_inputs,
            biases@.len() == n_neurons,
        ensures
            l.wf(),
            l.n_inputs == n_inputs,
            l.n_neurons == n_neurons,
            rows(l.weights@) == rows(weights@),
            ints(l.biases@) == ints(biases@),
            l.outputs@.len() == 0,
    {
        Layer { n_inputs, n_neurons, weights, biases, outputs: Vec::new() }
    }

    /// A deep copy: same dimensions, same weights, biases and outputs.
    pub fn copy(&self) -> (l: Layer)
        ensures
            l.n_inputs == self.n_inputs,
            l.n_neurons == self.n_neurons,
            rows(l.weights@) == rows(self.weights@),
            ints(l.biases@) == ints(self.biases@),
            ints(l.outputs@) == ints(self.outputs@),
            self.wf() ==> l.wf(),
    {
        let mut weights: Vec<Vec<i64>> = Vec::new();
        let mut r: usize = 0;
        while r < self.weights.len()
            invariant
                weights@.len() == r,
                r <= self.weights@.len(),
                forall|i: int|
                    0 <= i < r ==> ints((#[trigger] weights@[i])@) == ints(self.weights@[i]@),
                forall|i: int|
                    0 <= i < r ==> (#[trigger] weights@[i])@.len() == self.weights@[i]@.len(),
            decreases self.weights@.len() - r,
        {
            let src = &self.weights[r];
            let mut row: Vec<i64> = Vec::new();
            let mut c: usize = 0;
            while c < src.len()
                invariant
                    c <= src@.len(),
                    row@ == src@.take(c as int),
                decreases src@.len() - c,
            {
                row.push(src[c]);
                proof {
                    assert(row@ =~= src@.take(c + 1));
                }
                c += 1;
            }
            proof {
                assert(src@.take(src@.len() as int) =~= src@);
            }
            weights.push(row);
            r += 1;
        }
        let mut biases: Vec<i64> = Vec::new();
        let mut b: usize = 0;
        while b < self.biases.len()
            invariant
                b <= self.biases@.len(),
                biases@ == self.biases@.take(b as int),
            decreases self.biases@.len() - b,
        {
            biases.push(self.biases[b]);
            proof {
                assert(biases@ =~= self.biases@.take(b + 1));
            }
            b += 1;
        }
        let mut outputs: Vec<i64> = Vec::new();
        let mut o: usize = 0;
        while o < self.outputs.len()
            invariant
                o <= self.outputs@.len(),
                outputs@ == self.outputs@.take(o as int),
            decreases self.outputs@.len() - o,
        {
            outputs.push(self.outputs[o]);
            proof {
                assert(outputs@ =~= self.outputs@.take(o + 1));
            }
            o += 1;
        }
        proof {
            assert(self.biases@.take(self.biases@.len() as int) =~= self.biases@);
            assert(self.outputs@.take(self.outputs@.len() as int) =~= self.outputs@);
            assert(rows(weights@) =~= rows(self.weights@));
        }
        Layer {
            n_inputs: self.n_inputs,
            n_neurons: self.n_neurons,
            weights,
            biases,
            outputs,
        }
    }

    /// The forward pass: overwrites `outputs` with one pre-activation value
    /// per neuron.  The result is a pure function of the weights, biases and
    /// inputs alone.
    pub fn forward(&mut self, inputs: &Vec<i64>)
        requires
            old(self).wf(),
            inputs@.len() == old(self).n_inputs,
        ensures
            final(self).wf(),
            final(self).n_inputs == old(self).n_inputs,
            final(self).n_neurons == old(self).n_neurons,
            final(self).weights == old(self).weights,
            final(self).biases == old(self).biases,
            ints(final(self).outputs@) == forward_spec(
                rows(old(self).weights@),
                ints(old(self).biases@),
                ints(inputs@),
            ),
            final(self).outputs@.len() == old(self).n_neurons,
    {
        let ghost w = rows(self.weights@);
        let ghost bs = ints(self.biases@);
        let ghost inp = ints(inputs@);
        let mut outputs: Vec<i64> = Vec::new();
        let mut i: usize = 0;
        while i < self.weights.len()
            invariant
                self.wf(),
                i <= self.weights@.len(),
                inputs@.len() == self.n_inputs,
                w == rows(self.weights@),
                bs == ints(self.biases@),
                inp == ints(inputs@),
                outputs@.len() == i,
                forall|k: int|
                    0 <= k < i ==> (#[trigger] outputs@[k]) as int == neuron_spec(w[k], inp, bs[k]),
            decreases self.weights@.len() - i,
        {
            let d = Layer::dot(&self.weights[i], inputs);
            outputs.push(fx_add(d, self.biases[i]));
            i += 1;
        }
        self.outputs = outputs;
        proof {
            assert(ints(self.outputs@) =~= forward_spec(w, bs, inp));
        }
    }

    /// The forward pass with the shape of the input checked at the door:
    /// an input vector whose length disagrees with the layer's input width
    /// is rejected, and the layer is left untouched.
    pub fn forward_checked(&mut self, inputs: &Vec<i64>) -> (res: Result<(), GaError>)
        requires
            old(self).wf(),
        ensures
            final(self).wf(),
            final(self).n_inputs == old(self).n_inputs,
            final(self).n_neurons == old(self).n_neurons,
            final(self).weights == old(self).weights,
            final(self).biases == old(self).biases,
            inputs@.len() != old(self).n_inputs <==> res is Err,
            res is Err ==> res == Err::<(), GaError>(GaError::ShapeMismatch),
            res is Err ==> final(self).outputs == old(self).outputs,
            res is Ok ==> ints(final(self).outputs@) == forward_spec(
                rows(old(self).weights@),
                ints(old(self).biases@),
                ints(inputs@),
            ),
    {
        if inputs.len() != self.n_inputs {
            return Err(GaError::ShapeMismatch);
        }
        self.forward(inputs);
        Ok(())
    }

    /// In-place rectifier over the outputs.  No element of the result is
    /// negative, and every element that was already non-negative is kept
    /// unchanged.
    pub fn relu(&mut self)
        ensures
            final(self).n_inputs == old(self).n_inputs,
            final(self).n_neurons == old(self).n_neurons,
            final(self).weights == old(self).weights,
            final(self).biases == old(self).biases,
            ints(final(self).outputs@) == relu_spec(ints(old(self).outputs@)),
            final(self).outputs@.len() == old(self).outputs@.len(),
            forall|i: int|
                0 <= i < final(self).outputs@.len() ==> #[trigger] final(self).outputs@[i] >= 0,
            forall|i: int|
                0 <= i < final(self).outputs@.len() && old(self).outputs@[i] >= 0
                    ==> #[trigger] final(self).outputs@[i] == old(self).outputs@[i],
    {
        let ghost before = ints(self.outputs@);
        let mut outputs: Vec<i64> = Vec::new();
        let mut i: usize = 0;
        while i < self.outputs.len()
            invariant
                i <= self.outputs@.len(),
                before == ints(self.outputs@),
                outputs@.len() == i,
                forall|k: int|
                    0 <= k < i ==> (#[trigger] outputs@[k]) as int == (if before[k] < 0 {
                        0int
                    } else {
                        before[k]
                    }),
            decreases self.outputs@.len() - i,
        {
            let x = self.outputs[i];
            if x < 0 {
                outputs.push(0);
            } else {
                outputs.push(x);
            }
            i += 1;
        }
        self.outputs = outputs;
        proof {
            assert(ints(self.outputs@) =~= relu_spec(before));
        }
    }

    fn max_output(v: &Vec<i64>) -> (m: i64)
        requires
            v@.len() > 0,
        ensures
            m as int == max_spec(ints(v@)),
            forall|i: int| 0 <= i < v@.len() ==> #[trigger] v@[i] <= m,
            exists|i: int| 0 <= i < v@.len() && v@[i] == m,
    {
        let mut m: i64 = v[0];
        let mut i: usize = 1;
        while i < v.len()
            invariant
                1 <= i <= v@.len(),
                m as int == max_spec(ints(v@).take(i as int)),
                forall|k: int| 0 <= k < i ==> #[trigger] v@[k] <= m,
                exists|k: int| 0 <= k < i && v@[k] == m,
            decreases v@.len() - i,
        {
            proof {
                let s1 = ints(v@).take(i + 1);
                assert(s1.drop_last() =~= ints(v@).take(i as int));
                assert(s1.last() == v@[i as int] as int);
            }
            if v[i] > m {
                m = v[i];
            }
            i += 1;
        }
        proof {
            assert(ints(v@).take(v@.len() as int) =~= ints(v@));
        }
        m
    }

    fn exp_fx(d: i128) -> (r: i64)
        requires
            d <= 0,
        ensures
            r as int == exp_fx_spec(d as int),
            0 <= r <= SCALE,
    {
        proof {
            lemma_exp_range(d as int);
        }
        if d == 0 {
            return SCALE;
        }
        let neg_lim: i128 = -1_024_000_000;
        proof {
            assert(neg_lim == -1024 * (SCALE as int));
        }
        if d <= neg_lim {
            return 0;
        }
        let u: u64 = (-d) as u64;
        let t: u64 = u / 1024;
        if t >= SCALE as u64 {
            return 0;
        }
        let mut r: i64 = SCALE - (t as i64);
        let ghost base = r as int;
        proof {
            assert(exp_fx_spec(d as int) == sq_iter(base, 10));
            assert(0 <= r <= SCALE);
        }
        let mut k: u64 = 0;
        while k < 10
            invariant
                k <= 10,
                0 <= r <= SCALE,
                sq_iter(r as int, (10 - k) as nat) == sq_iter(base, 10),
            decreases 10 - k,
        {
            proof {
                lemma_sq_step_range(r as int);
                assert((r as int) * (r as int) <= (SCALE as int) * (SCALE as int))
                    by (nonlinear_arith)
                    requires
                        0 <= r as int <= SCALE as int,
                ;
            }
            let rr: u64 = ((r as u64) * (r as u64)) / (SCALE as u64);
            r = rr as i64;
            k += 1;
        }
        r
    }
}

impl Layer {
    /// Numerically stable softmax over the outputs: shift by the greatest
    /// output, exponentiate, and normalize by the sum of the exponentials.
    /// Rejects an empty output vector, which only arises before any forward
    /// pass has run.
    pub fn softmax(&mut self) -> (res: Result<(), GaError>)
        ensures
            final(self).n_inputs == old(self).n_inputs,
            final(self).n_neurons == old(self).n_neurons,
            final(self).weights == old(self).weights,
            final(self).biases == old(self).biases,
            old(self).outputs@.len() == 0 <==> res is Err,
            res is Err ==> res == Err::<(), GaError>(GaError::EmptyActivation),
            res is Err ==> final(self).outputs == old(self).outputs,
            res is Ok ==> ints(final(self).outputs@) == softmax_spec(ints(old(self).outputs@)),
            res is Ok ==> final(self).outputs@.len() == old(self).outputs@.len(),
            res is Ok ==> forall|i: int|
                0 <= i < final(self).outputs@.len() ==> 0 <= #[trigger] final(self).outputs@[i]
                    <= SCALE,
            res is Ok ==> SCALE as int - old(self).outputs@.len() < sum_spec(
                ints(final(self).outputs@),
            ) <= SCALE as int,
    {
        if self.outputs.len() == 0 {
            return Err(GaError::EmptyActivation);
        }
        let ghost s = ints(self.outputs@);
        let ghost mspec = max_spec(s);
        let ghost espec = Seq::new(s.len(), |i: int| exp_fx_spec(s[i] - mspec));
        let m = Self::max_output(&self.outputs);
        let mut e: Vec<i64> = Vec::new();
        let mut i: usize = 0;
        while i < self.outputs.len()
            invariant
                i <= self.outputs@.len(),
                s == ints(self.outputs@),
                mspec == m as int,
                espec == Seq::new(s.len(), |j: int| exp_fx_spec(s[j] - mspec)),
                forall|k: int| 0 <= k < s.len() ==> #[trigger] s[k] <= mspec,
                e@.len() == i,
                forall|k: int| 0 <= k < i ==> (#[trigger] e@[k]) as int == espec[k],
                forall|k: int| 0 <= k < i ==> 0 <= #[trigger] e@[k] <= SCALE,
            decreases self.outputs@.len() - i,
        {
            proof {
                assert(s[i as int] == self.outputs@[i as int] as int);
                assert(s[i as int] <= mspec);
            }
            let d: i128 = self.outputs[i] as i128 - m as i128;
            let x = Self::exp_fx(d);
            e.push(x);
            i += 1;
        }
        let ghost tspec = sum_spec(espec);
        proof {
            assert(ints(e@) =~= espec);
        }
        let mut total: i128 = 0;
        let mut j: usize = 0;
        while j < e.len()
            invariant
                j <= e@.len(),
                e@.len() == s.len(),
                forall|k: int| 0 <= k < e@.len() ==> 0 <= #[trigger] e@[k] <= SCALE,
                ints(e@) == espec,
                total == sum_spec(espec.take(j as int)),
                0 <= total <= (j as int) * (SCALE as int),
            decreases e@.len() - j,
        {
            proof {
                let s1 = espec.take(j + 1);
                assert(s1.drop_last() =~= espec.take(j as int));
                assert(s1.last() == e@[j as int] as int);
                assert((j as int) * (SCALE as int) + (SCALE as int) == ((j as int) + 1) * (
                SCALE as int)) by (nonlinear_arith);
                assert(((j as int) + 1) * (SCALE as int) <= 0x1_0000_0000_0000_0000 * 1_000_000)
                    by (nonlinear_arith)
                    requires
                        0 <= j as int + 1 <= 0x1_0000_0000_0000_0000,
                ;
            }
            total = total + e[j] as i128;
            j += 1;
        }
        proof {
            assert(espec.take(espec.len() as int) =~= espec);
            assert(total == tspec);
            lemma_max_is_elem(s);
            let jm = choose|jj: int| 0 <= jj < s.len() && s[jj] == mspec;
            assert(espec[jm] == SCALE as int) by {
                lemma_exp_range(0);
            }
            assert forall|k: int| 0 <= k < espec.len() implies 0 <= #[trigger] espec[k] by {
                assert(espec[k] == ints(e@)[k]);
            }
            lemma_sum_at_least_elem(espec, jm);
            assert(total >= SCALE as int);
        }
        let mut out: Vec<i64> = Vec::new();
        let mut p: usize = 0;
        while p < e.len()
            invariant
                p <= e@.len(),
                e@.len() == s.len(),
                forall|k: int| 0 <= k < e@.len() ==> 0 <= #[trigger] e@[k] <= SCALE,
                ints(e@) == espec,
                total == tspec,
                total >= SCALE as int,
                out@.len() == p,
                forall|k: int|
                    0 <= k < p ==> (#[trigger] out@[k]) as int == (espec[k] * (SCALE as int))
                        / tspec,
            decreases e@.len() - p,
        {
            proof {
                let ek = e@[p as int] as int;
                assert(espec[p as int] == ek);
                lemma_sum_at_least_elem(espec, p as int);
                assert(ek <= tspec);
                assert(0 <= ek * (SCALE as int) <= tspec * (SCALE as int)) by (nonlinear_arith)
                    requires
                        0 <= ek <= tspec,
                ;
                lemma_div_pos_is_pos(ek * (SCALE as int), tspec);
                lemma_div_is_ordered(ek * (SCALE as int), tspec * (SCALE as int), tspec);
                lemma_div_multiples_vanish(SCALE as int, tspec);
            }
            let q: u128 = ((e[p] as u128) * (SCALE as u128)) / (total as u128);
            out.push(q as i64);
            p += 1;
        }
        self.outputs = out;
        proof {
            assert(ints(self.outputs@) =~= softmax_spec(s));
            lemma_softmax_bounds(s);
            assert forall|k: int| 0 <= k < self.outputs@.len() implies 0
                <= #[trigger] self.outputs@[k] <= SCALE by {
                assert(self.outputs@[k] as int == softmax_spec(s)[k]);
            }
        }
        Ok(())
    }
}

} // verus!
