//! An evolvable agent: physical state plus a four-layer controller.

use vstd::prelude::*;
use vstd::arithmetic::div_mod::{
    lemma_div_is_ordered, lemma_div_pos_is_pos, lemma_div_multiples_vanish,
};
use crate::fixed::{
    SCALE, sat, in_range, fx_add, fx_sub, fx_add_spec, is_isqrt, isqrt_spec,
    isqrt_u128, lemma_isqrt_unique,
};
use crate::layer::{
    Layer, ints, rows, forward_spec, relu_spec, softmax_spec,
};
use crate::rng::rand_range_usize;

verus! {

/// A two-dimensional fixed-point vector.
#[derive(Clone, Copy, PartialEq, Eq, Structural, Debug)]
pub struct Vec2 {
    pub x: i64,
    pub y: i64,
}

/// Magnitude of one thrust impulse: 0.1 in micro-units.
pub const THRUST: i64 = 100_000;

/// Squared Euclidean distance between two points given by coordinates.
pub open spec fn dist_sq_vals(ax: int, ay: int, bx: int, by: int) -> int {
    (ax - bx) * (ax - bx) + (ay - by) * (ay - by)
}

/// Squared Euclidean distance between two points.
pub open spec fn dist_sq_of(a: Vec2, b: Vec2) -> int {
    dist_sq_vals(a.x as int, a.y as int, b.x as int, b.y as int)
}

/// Linear remap of a distance in `[0, w]` onto a score in `[100, 0]`,
/// truncated to an integer; distances at or beyond `w` score zero.
pub open spec fn fitness_spec(d: int, w: int) -> int {
    if w <= 0 || d >= w {
        0
    } else {
        ((w - d) * 100) / w
    }
}

/// The fitness of a rocket: its distance to the target remapped onto
/// `[100, 0]` over a world `width` pixels wide.
pub open spec fn fitness_of(r: Rocket, width: int) -> int {
    fitness_spec(isqrt_spec(dist_sq_of(r.pos, r.target)), width * (SCALE as int))
}

/// Fitness is never negative.
pub proof fn lemma_fitness_nonneg(r: Rocket, width: int)
    ensures
        fitness_of(r, width) >= 0,
{
    let d = isqrt_spec(dist_sq_of(r.pos, r.target));
    let w = width * (SCALE as int);
    if w > 0 && d < w {
        assert((w - d) * 100 >= 0) by (nonlinear_arith)
            requires
                d < w,
        ;
        lemma_div_pos_is_pos((w - d) * 100, w);
    }
}

/// A squared distance is never negative.
pub proof fn lemma_dist_sq_nonneg(a: Vec2, b: Vec2)
    ensures
        dist_sq_of(a, b) >= 0,
{
    let dx = a.x as int - b.x as int;
    let dy = a.y as int - b.y as int;
    assert(dx * dx + dy * dy >= 0) by (nonlinear_arith);
}

/// Of two rockets judged over the same world width, the one no farther
/// from its target scores no less.
pub proof fn lemma_fitness_of_monotone(r1: Rocket, r2: Rocket, width: int)
    requires
        dist_sq_of(r1.pos, r1.target) <= dist_sq_of(r2.pos, r2.target),
    ensures
        fitness_of(r1, width) >= fitness_of(r2, width),
{
    let n1 = dist_sq_of(r1.pos, r1.target);
    let n2 = dist_sq_of(r2.pos, r2.target);
    lemma_dist_sq_nonneg(r1.pos, r1.target);
    lemma_dist_sq_nonneg(r2.pos, r2.target);
    crate::fixed::lemma_isqrt_exists(n1);
    crate::fixed::lemma_isqrt_exists(n2);
    let d1 = isqrt_spec(n1);
    let d2 = isqrt_spec(n2);
    crate::fixed::lemma_isqrt_monotone(n1, n2, d1, d2);
    lemma_fitness_monotone(d1, d2, width * (SCALE as int));
}

/// Fitness never increases with distance.
pub proof fn lemma_fitness_monotone(d1: int, d2: int, w: int)
    requires
        0 <= d1 <= d2,
    ensures
        fitness_spec(d1, w) >= fitness_spec(d2, w),
{
    if w > 0 && d2 < w {
        assert((w - d2) * 100 <= (w - d1) * 100) by (nonlinear_arith)
            requires
                d1 <= d2,
        ;
        lemma_div_is_ordered((w - d2) * 100, (w - d1) * 100, w);
    } else if w > 0 && d1 < w {
        assert((w - d1) * 100 >= 0) by (nonlinear_arith)
            requires
                d1 < w,
        ;
        lemma_div_pos_is_pos((w - d1) * 100, w);
    }
}

/// Weight rows after a single-split crossover at `m`: rows with index
/// strictly above `m` from `a`, the rest from `b`.
pub open spec fn mix_rows(a: Seq<Seq<int>>, b: Seq<Seq<int>>, m: int) -> Seq<Seq<int>> {
    Seq::new(a.len(), |i: int| if i > m { a[i] } else { b[i] })
}

/// Biases after a single-split crossover at `m`, same rule as `mix_rows`.
pub open spec fn mix_vals(a: Seq<int>, b: Seq<int>, m: int) -> Seq<int> {
    Seq::new(a.len(), |i: int| if i > m { a[i] } else { b[i] })
}

/// First index of the greatest element: ties resolve to the lowest index.
pub open spec fn argmax_spec(s: Seq<int>) -> int
    decreases s.len(),
{
    if s.len() <= 1 {
        0
    } else {
        let a = argmax_spec(s.drop_last());
        if s.last() > s[a] {
            s.len() - 1
        } else {
            a
        }
    }
}

/// The argmax lies in bounds, no element exceeds it, and every earlier
/// element is strictly below it.
pub proof fn lemma_argmax_spec(s: Seq<int>)
    requires
        s.len() >= 1,
    ensures
        0 <= argmax_spec(s) < s.len(),
        forall|i: int| 0 <= i < s.len() ==> #[trigger] s[i] <= s[argmax_spec(s)],
        forall|i: int| 0 <= i < argmax_spec(s) ==> #[trigger] s[i] < s[argmax_spec(s)],
    decreases s.len(),
{
    if s.len() > 1 {
        lemma_argmax_spec(s.drop_last());
        assert forall|i: int| 0 <= i < s.len() - 1 implies s.drop_last()[i] == s[i] by {}
    }
}

/// One layer's contribution to the forward cascade: pre-activations then
/// the rectifier.
pub open spec fn layer_activations(l: Layer, inp: Seq<int>) -> Seq<int> {
    relu_spec(forward_spec(rows(l.weights@), ints(l.biases@), inp))
}

/// The probability-like output of the whole network on a 4-element input:
/// three rectified layers, then the softmax-normalized head.
pub open spec fn net_probs(r: Rocket, inp: Seq<int>) -> Seq<int> {
    let h1 = layer_activations(r.layer1, inp);
    let h2 = layer_activations(r.layer2, h1);
    let h3 = layer_activations(r.layer3, h2);
    softmax_spec(forward_spec(rows(r.layer4.weights@), ints(r.layer4.biases@), h3))
}

/// The discrete action: the first index of the greatest network output.
/// 0 thrusts up, 1 thrusts right, 2 thrusts left.
pub open spec fn net_action(r: Rocket, inp: Seq<int>) -> int {
    argmax_spec(net_probs(r, inp))
}

/// Horizontal component of the thrust impulse for an action.
pub open spec fn impulse_x(a: int) -> int {
    if a == 1 {
        THRUST as int
    } else if a == 2 {
        -(THRUST as int)
    } else {
        0
    }
}

/// Vertical component of the thrust impulse for an action.
pub open spec fn impulse_y(a: int) -> int {
    if a == 0 {
        THRUST as int
    } else {
        0
    }
}

/// The 4-element input a rocket feeds its own network.
pub open spec fn input_vector(r: Rocket) -> Seq<int> {
    seq![r.pos.x as int, r.pos.y as int, r.target.x as int, r.target.y as int]
}

/// Horizontal velocity after one tick of `r`.
pub open spec fn post_update_vel_x(r: Rocket) -> int {
    fx_add_spec(
        fx_add_spec(r.vel.x as int, impulse_x(net_action(r, input_vector(r)))),
        r.acc.x as int,
    )
}

/// Vertical velocity after one tick of `r`.
pub open spec fn post_update_vel_y(r: Rocket) -> int {
    fx_add_spec(
        fx_add_spec(r.vel.y as int, impulse_y(net_action(r, input_vector(r)))),
        r.acc.y as int,
    )
}

/// Horizontal position after one tick of `r`.
pub open spec fn post_update_pos_x(r: Rocket) -> int {
    fx_add_spec(r.pos.x as int, post_update_vel_x(r))
}

/// Vertical position after one tick of `r`.
pub open spec fn post_update_pos_y(r: Rocket) -> int {
    fx_add_spec(r.pos.y as int, post_update_vel_y(r))
}

/// `post` is `pre` advanced by exactly one tick: the chosen action's
/// impulse and the acceleration added to the velocity, the velocity added
/// to the position, the acceleration reset, and everything else kept.
pub open spec fn is_updated(post: Rocket, pre: Rocket) -> bool {
    &&& post.target == pre.target
    &&& same_brain(post.layer1, pre.layer1)
    &&& same_brain(post.layer2, pre.layer2)
    &&& same_brain(post.layer3, pre.layer3)
    &&& same_brain(post.layer4, pre.layer4)
    &&& post.vel.x as int == post_update_vel_x(pre)
    &&& post.vel.y as int == post_update_vel_y(pre)
    &&& post.pos.x as int == post_update_pos_x(pre)
    &&& post.pos.y as int == post_update_pos_y(pre)
    &&& post.acc == (Vec2 { x: 0i64, y: 0i64 })
}

/// The fitness `r` will have after one tick.
pub open spec fn post_update_fitness(r: Rocket, width: int) -> int {
    fitness_spec(
        isqrt_spec(
            dist_sq_vals(
                post_update_pos_x(r),
                post_update_pos_y(r),
                r.target.x as int,
                r.target.y as int,
            ),
        ),
        width * (SCALE as int),
    )
}

/// The two rockets agree on every field the simulation reads: physical
/// state, target, and all four layers' contents.
pub open spec fn same_rocket(a: Rocket, b: Rocket) -> bool {
    &&& a.pos == b.pos
    &&& a.vel == b.vel
    &&& a.acc == b.acc
    &&& a.target == b.target
    &&& same_brain(a.layer1, b.layer1)
    &&& same_brain(a.layer2, b.layer2)
    &&& same_brain(a.layer3, b.layer3)
    &&& same_brain(a.layer4, b.layer4)
}

/// A rocket advanced by one tick scores exactly its post-update fitness.
pub proof fn lemma_updated_fitness(post: Rocket, pre: Rocket, width: int)
    requires
        is_updated(post, pre),
    ensures
        fitness_of(post, width) == post_update_fitness(pre, width),
{
}

/// `c` combines `a` and `b` by one single-split crossover per weight matrix
/// and bias vector.
pub open spec fn is_mix_layer(c: Layer, a: Layer, b: Layer) -> bool {
    &&& c.n_inputs == a.n_inputs
    &&& c.n_neurons == a.n_neurons
    &&& exists|mw: int|
        0 <= mw < a.n_neurons && rows(c.weights@) == mix_rows(
            rows(a.weights@),
            rows(b.weights@),
            mw,
        )
    &&& exists|mb: int|
        0 <= mb < a.n_neurons && ints(c.biases@) == mix_vals(
            ints(a.biases@),
            ints(b.biases@),
            mb,
        )
}

pub struct Rocket {
    pub pos: Vec2,
    pub vel: Vec2,
    pub acc: Vec2,
    pub target: Vec2,
    pub layer1: Layer,
    pub layer2: Layer,
    pub layer3: Layer,
    pub layer4: Layer,
}

/// The two layers hold the same dimensions, weights and biases.
pub open spec fn same_brain(a: Layer, b: Layer) -> bool {
    &&& a.n_inputs == b.n_inputs
    &&& a.n_neurons == b.n_neurons
    &&& rows(a.weights@) == rows(b.weights@)
    &&& ints(a.biases@) == ints(b.biases@)
}

impl Rocket {
    /// Well-formedness: the four layers are wired 4-3, 3-3, 3-3, 3-3, each
    /// internally consistent, and every physical coordinate lies in the
    /// fixed-point domain.
    pub open spec fn wf(&self) -> bool {
        &&& self.layer1.wf() && self.layer1.n_inputs == 4 && self.layer1.n_neurons == 3
        &&& self.layer2.wf() && self.layer2.n_inputs == 3 && self.layer2.n_neurons == 3
        &&& self.layer3.wf() && self.layer3.n_inputs == 3 && self.layer3.n_neurons == 3
        &&& self.layer4.wf() && self.layer4.n_inputs == 3 && self.layer4.n_neurons == 3
        &&& in_range(self.pos.x as int) && in_range(self.pos.y as int)
        &&& in_range(self.vel.x as int) && in_range(self.vel.y as int)
        &&& in_range(self.acc.x as int) && in_range(self.acc.y as int)
        &&& in_range(self.target.x as int) && in_range(self.target.y as int)
    }

    /// The vertical launch ordinate: half the window height below the
    /// center, in micro-units.
    pub open spec fn launch_y_spec(height: int) -> int {
        sat(-height * 500_000)
    }

    fn launch_y(height: u32) -> (r: i64)
        ensures
            r as int == Self::launch_y_spec(height as int),
            in_range(r as int),
    {
        proof {
            assert(0 <= (height as int) * 500_000 <= 0x1_0000_0000int * 500_000)
                by (nonlinear_arith)
                requires
                    0 <= height as int && (height as int) < 0x1_0000_0000,
            ;
        }
        let raw: i128 = -((height as i128) * 500_000);
        if raw < -(crate::fixed::LIMIT as i128) {
            -crate::fixed::LIMIT
        } else {
            raw as i64
        }
    }

    /// A fresh rocket at the launch position with zero velocity and
    /// acceleration, a randomly initialized controller, and the given target.
    pub fn new(_width: u32, height: u32, target: Vec2) -> (r: Rocket)
        requires
            in_range(target.x as int),
            in_range(target.y as int),
        ensures
            r.wf(),
            r.pos.x == 0,
            r.pos.y as int == Self::launch_y_spec(height as int),
            r.vel == (Vec2 { x: 0i64, y: 0i64 }),
            r.acc == (Vec2 { x: 0i64, y: 0i64 }),
            r.target == target,
    {
        Rocket {
            pos: Vec2 { x: 0, y: Self::launch_y(height) },
            vel: Vec2 { x: 0, y: 0 },
            acc: Vec2 { x: 0, y: 0 },
            layer1: Layer::new(4, 3),
            layer2: Layer::new(3, 3),
            layer3: Layer::new(3, 3),
            layer4: Layer::new(3, 3),
            target,
        }
    }

    /// The deterministic constructor: every field supplied by the caller.
    pub fn new_with_values(
        pos: Vec2,
        vel: Vec2,
        acc: Vec2,
        layer1: Layer,
        layer2: Layer,
        layer3: Layer,
        layer4: Layer,
        target: Vec2,
    ) -> (r: Rocket)
        ensures
            r.pos == pos,
            r.vel == vel,
            r.acc == acc,
            r.target == target,
            same_brain(r.layer1, layer1),
            same_brain(r.layer2, layer2),
            same_brain(r.layer3, layer3),
            same_brain(r.layer4, layer4),
            r.layer1 == layer1,
            r.layer2 == layer2,
            r.layer3 == layer3,
            r.layer4 == layer4,
    {
        Rocket { pos, vel, acc, layer1, layer2, layer3, layer4, target }
    }

    /// A deep copy: identical physical state and identical layer contents.
    pub fn copy(&self) -> (r: Rocket)
        ensures
            r.pos == self.pos,
            r.vel == self.vel,
            r.acc == self.acc,
            r.target == self.target,
            same_brain(r.layer1, self.layer1),
            same_brain(r.layer2, self.layer2),
            same_brain(r.layer3, self.layer3),
            same_brain(r.layer4, self.layer4),
            ints(r.layer1.outputs@) == ints(self.layer1.outputs@),
            ints(r.layer2.outputs@) == ints(self.layer2.outputs@),
            ints(r.layer3.outputs@) == ints(self.layer3.outputs@),
            ints(r.layer4.outputs@) == ints(self.layer4.outputs@),
            same_rocket(r, *self),
            self.wf() ==> r.wf(),
    {
        Rocket {
            pos: self.pos,
            vel: self.vel,
            acc: self.acc,
            target: self.target,
            layer1: self.layer1.copy(),
            layer2: self.layer2.copy(),
            layer3: self.layer3.copy(),
            layer4: self.layer4.copy(),
        }
    }

    fn distance(a: Vec2, b: Vec2) -> (r: u64)
        requires
            in_range(a.x as int),
            in_range(a.y as int),
            in_range(b.x as int),
            in_range(b.y as int),
        ensures
            is_isqrt(dist_sq_of(a, b), r as int),
    {
        let dx: i128 = a.x as i128 - b.x as i128;
        let dy: i128 = a.y as i128 - b.y as i128;
        let ux: u128 = if dx >= 0 {
            dx as u128
        } else {
            (-dx) as u128
        };
        let uy: u128 = if dy >= 0 {
            dy as u128
        } else {
            (-dy) as u128
        };
        proof {
            assert(ux as int * ux as int == dx as int * dx as int) by (nonlinear_arith)
                requires
                    ux as int == dx as int || ux as int == -(dx as int),
            ;
            assert(uy as int * uy as int == dy as int * dy as int) by (nonlinear_arith)
                requires
                    uy as int == dy as int || uy as int == -(dy as int),
            ;
            assert(ux as int * ux as int <= 4_000_000_000_000_000_000_000_000_000_000int)
                by (nonlinear_arith)
                requires
                    0 <= ux as int <= 2_000_000_000_000_000,
            ;
            assert(uy as int * uy as int <= 4_000_000_000_000_000_000_000_000_000_000int)
                by (nonlinear_arith)
                requires
                    0 <= uy as int <= 2_000_000_000_000_000,
            ;
        }
        let sx: u128 = ux * ux;
        let sy: u128 = uy * uy;
        let s: u128 = sx + sy;
        let rt = isqrt_u128(s);
        proof {
            assert(rt as int <= 3_000_000_000_000_000) by (nonlinear_arith)
                requires
                    0 <= rt as int,
                    (rt as int) * (rt as int) <= 8_000_000_000_000_000_000_000_000_000_000int,
            ;
        }
        rt as u64
    }

    fn fitness_from_distance(d: u64, w: u64) -> (r: u32)
        ensures
            r as int == fitness_spec(d as int, w as int),
            r <= 100,
    {
        if w == 0 || d >= w {
            return 0;
        }
        proof {
            assert((w as int - d as int) * 100 <= (w as int) * 100) by (nonlinear_arith)
                requires
                    0 <= d as int,
                    d as int <= w as int,
            ;
            assert((w as int - d as int) * 100 >= 0) by (nonlinear_arith)
                requires
                    d as int <= w as int,
            ;
            lemma_div_is_ordered((w as int - d as int) * 100, (w as int) * 100, w as int);
            lemma_div_multiples_vanish(100, w as int);
            assert((w as int) * 100 == (w as int as int) * 100);
            assert(((w as int) * 100) / (w as int) == 100) by {
                assert((w as int) * 100 == 100 * (w as int)) by (nonlinear_arith);
            }
            lemma_div_pos_is_pos((w as int - d as int) * 100, w as int);
        }
        let num: u128 = ((w - d) as u128) * 100;
        let q: u128 = num / (w as u128);
        q as u32
    }

    /// The fitness score in `[0, 100]`: the distance to the target remapped
    /// linearly from `[0, width]` onto `[100, 0]`.
    pub fn evaluate(&self, width: u32) -> (f: u32)
        requires
            self.wf(),
        ensures
            f as int == fitness_of(*self, width as int),
            f <= 100,
    {
        let d = Self::distance(self.pos, self.target);
        let ghost dsq = dist_sq_of(self.pos, self.target);
        proof {
            assert(is_isqrt(dsq, d as int));
            assert(is_isqrt(dsq, isqrt_spec(dsq)));
            lemma_isqrt_unique(dsq, d as int, isqrt_spec(dsq));
            assert(0 <= (width as int) * 1_000_000 && (width as int) * 1_000_000 < 0x10_0000_0000_0000_0000int)
                by (nonlinear_arith)
                requires
                    0 <= width as int && (width as int) < 0x1_0000_0000,
            ;
        }
        let w: u64 = (width as u64) * 1_000_000;
        Self::fitness_from_distance(d, w)
    }

    /// The single-split crossover of two layers at the given split indices:
    /// weight rows above `mw` from `layer1`, the rest from `layer2`, and
    /// biases above `mb` from `layer1`, the rest from `layer2`.
    pub fn cross_over_layer_at(layer1: &Layer, layer2: &Layer, mw: usize, mb: usize) -> (r: (
        Vec<Vec<i64>>,
        Vec<i64>,
    ))
        requires
            layer1.wf(),
            layer2.wf(),
            layer2.n_neurons == layer1.n_neurons,
            layer2.n_inputs == layer1.n_inputs,
            mw < layer1.n_neurons,
            mb < layer1.n_neurons,
        ensures
            r.0@.len() == layer1.n_neurons,
            forall|i: int| 0 <= i < r.0@.len() ==> (#[trigger] r.0@[i])@.len() == layer1.n_inputs,
            r.1@.len() == layer1.n_neurons,
            rows(r.0@) == mix_rows(rows(layer1.weights@), rows(layer2.weights@), mw as int),
            ints(r.1@) == mix_vals(ints(layer1.biases@), ints(layer2.biases@), mb as int),
    {
        let n = layer1.n_neurons;
        let mut new_weights: Vec<Vec<i64>> = Vec::new();
        let mut i: usize = 0;
        while i < n
            invariant
                layer1.wf(),
                layer2.wf(),
                layer2.n_neurons == layer1.n_neurons,
                layer2.n_inputs == layer1.n_inputs,
                n == layer1.n_neurons,
                i <= n,
                new_weights@.len() == i,
                forall|k: int|
                    0 <= k < i ==> (#[trigger] new_weights@[k])@.len() == layer1.n_inputs,
                forall|k: int|
                    0 <= k < i ==> ints((#[trigger] new_weights@[k])@) == (if k > mw as int {
                        rows(layer1.weights@)[k]
                    } else {
                        rows(layer2.weights@)[k]
                    }),
            decreases n - i,
        {
            let row: Vec<i64> = if i > mw {
                layer1.weights[i].clone()
            } else {
                layer2.weights[i].clone()
            };
            proof {
                if i > mw {
                    assert(row@ =~= layer1.weights@[i as int]@);
                } else {
                    assert(row@ =~= layer2.weights@[i as int]@);
                }
            }
            new_weights.push(row);
            i += 1;
        }
        let mut new_biases: Vec<i64> = Vec::new();
        let mut j: usize = 0;
        while j < n
            invariant
                layer1.wf(),
                layer2.wf(),
                layer2.n_neurons == layer1.n_neurons,
                n == layer1.n_neurons,
                j <= n,
                new_biases@.len() == j,
                forall|k: int|
                    0 <= k < j ==> (#[trigger] new_biases@[k]) as int == (if k > mb as int {
                        ints(layer1.biases@)[k]
                    } else {
                        ints(layer2.biases@)[k]
                    }),
            decreases n - j,
        {
            if j > mb {
                new_biases.push(layer1.biases[j]);
            } else {
                new_biases.push(layer2.biases[j]);
            }
            j += 1;
        }
        proof {
            assert(rows(new_weights@) =~= mix_rows(
                rows(layer1.weights@),
                rows(layer2.weights@),
                mw as int,
            ));
            assert(ints(new_biases@) =~= mix_vals(
                ints(layer1.biases@),
                ints(layer2.biases@),
                mb as int,
            ));
        }
        (new_weights, new_biases)
    }

    /// Crossover of two layers at split indices drawn uniformly at random:
    /// whatever the draws, each weight row and each bias of the result is
    /// taken unchanged from exactly one of the two parents, under the
    /// single-split rule.
    pub fn cross_over_layer(layer1: Layer, layer2: Layer) -> (r: (Vec<Vec<i64>>, Vec<i64>))
        requires
            layer1.wf(),
            layer2.wf(),
            layer2.n_neurons == layer1.n_neurons,
            layer2.n_inputs == layer1.n_inputs,
            layer1.n_neurons > 0,
        ensures
            r.0@.len() == layer1.n_neurons,
            forall|i: int| 0 <= i < r.0@.len() ==> (#[trigger] r.0@[i])@.len() == layer1.n_inputs,
            r.1@.len() == layer1.n_neurons,
            exists|mw: int|
                0 <= mw < layer1.n_neurons && rows(r.0@) == mix_rows(
                    rows(layer1.weights@),
                    rows(layer2.weights@),
                    mw,
                ),
            exists|mb: int|
                0 <= mb < layer1.n_neurons && ints(r.1@) == mix_vals(
                    ints(layer1.biases@),
                    ints(layer2.biases@),
                    mb,
                ),
            forall|i: int|
                0 <= i < layer1.n_neurons ==> #[trigger] rows(r.0@)[i] == rows(layer1.weights@)[i]
                    || rows(r.0@)[i] == rows(layer2.weights@)[i],
            forall|i: int|
                0 <= i < layer1.n_neurons ==> #[trigger] ints(r.1@)[i] == ints(layer1.biases@)[i]
                    || ints(r.1@)[i] == ints(layer2.biases@)[i],
    {
        let mw = rand_range_usize(0, layer1.n_neurons);
        let mb = rand_range_usize(0, layer1.n_neurons);
        let r = Self::cross_over_layer_at(&layer1, &layer2, mw, mb);
        proof {
            assert(rows(r.0@) == mix_rows(rows(layer1.weights@), rows(layer2.weights@), mw as int));
            assert(ints(r.1@) == mix_vals(ints(layer1.biases@), ints(layer2.biases@), mb as int));
        }
        r
    }

    /// A child rocket at the launch position with zero velocity and
    /// acceleration, whose every layer is a single-split crossover of the
    /// parents' corresponding layers.
    pub fn cross_over(&self, other: &Rocket, height: u32) -> (c: Rocket)
        requires
            self.wf(),
            other.wf(),
        ensures
            c.wf(),
            c.pos.x == 0,
            c.pos.y as int == Self::launch_y_spec(height as int),
            c.vel == (Vec2 { x: 0i64, y: 0i64 }),
            c.acc == (Vec2 { x: 0i64, y: 0i64 }),
            c.target == self.target,
            is_mix_layer(c.layer1, self.layer1, other.layer1),
            is_mix_layer(c.layer2, self.layer2, other.layer2),
            is_mix_layer(c.layer3, self.layer3, other.layer3),
            is_mix_layer(c.layer4, self.layer4, other.layer4),
    {
        let (l1_weights, l1_biases) = Self::cross_over_layer(
            self.layer1.copy(),
            other.layer1.copy(),
        );
        let (l2_weights, l2_biases) = Self::cross_over_layer(
            self.layer2.copy(),
            other.layer2.copy(),
        );
        let (l3_weights, l3_biases) = Self::cross_over_layer(
            self.layer3.copy(),
            other.layer3.copy(),
        );
        let (l4_weights, l4_biases) = Self::cross_over_layer(
            self.layer4.copy(),
            other.layer4.copy(),
        );
        Rocket {
            pos: Vec2 { x: 0, y: Self::launch_y(height) },
            vel: Vec2 { x: 0, y: 0 },
            acc: Vec2 { x: 0, y: 0 },
            layer1: Layer::new_with_values(
                self.layer1.n_inputs,
                self.layer1.n_neurons,
                l1_weights,
                l1_biases,
            ),
            layer2: Layer::new_with_values(
                self.layer2.n_inputs,
                self.layer2.n_neurons,
                l2_weights,
                l2_biases,
            ),
            layer3: Layer::new_with_values(
                self.layer3.n_inputs,
                self.layer3.n_neurons,
                l3_weights,
                l3_biases,
            ),
            layer4: Layer::new_with_values(
                self.layer4.n_inputs,
                self.layer4.n_neurons,
                l4_weights,
                l4_biases,
            ),
            target: self.target,
        }
    }

    /// Runs the forward cascade on a 4-element input and returns the first
    /// index of the greatest network output.  The result is always 0, 1
    /// or 2: an invalid action is unreachable by construction.
    pub fn decide_action(&mut self, inputs: &Vec<i64>) -> (a: usize)
        requires
            old(self).wf(),
            inputs@.len() == 4,
        ensures
            final(self).wf(),
            a < 3,
            a as int == net_action(*old(self), ints(inputs@)),
            final(self).pos == old(self).pos,
            final(self).vel == old(self).vel,
            final(self).acc == old(self).acc,
            final(self).target == old(self).target,
            same_brain(final(self).layer1, old(self).layer1),
            same_brain(final(self).layer2, old(self).layer2),
            same_brain(final(self).layer3, old(self).layer3),
            same_brain(final(self).layer4, old(self).layer4),
            ints(final(self).layer4.outputs@) == net_probs(*old(self), ints(inputs@)),
    {
        let ghost inp = ints(inputs@);
        self.layer1.forward(inputs);
        self.layer1.relu();
        let h1 = vec![self.layer1.outputs[0], self.layer1.outputs[1], self.layer1.outputs[2]];
        proof {
            assert(ints(h1@) =~= layer_activations(old(self).layer1, inp));
        }
        self.layer2.forward(&h1);
        self.layer2.relu();
        let h2 = vec![self.layer2.outputs[0], self.layer2.outputs[1], self.layer2.outputs[2]];
        proof {
            assert(ints(h2@) =~= layer_activations(old(self).layer2, ints(h1@)));
        }
        self.layer3.forward(&h2);
        self.layer3.relu();
        let h3 = vec![self.layer3.outputs[0], self.layer3.outputs[1], self.layer3.outputs[2]];
        proof {
            assert(ints(h3@) =~= layer_activations(old(self).layer3, ints(h2@)));
        }
        self.layer4.forward(&h3);
        let sres = self.layer4.softmax();
        proof {
            assert(sres is Ok);
            assert(ints(self.layer4.outputs@) == net_probs(*old(self), inp));
        }
        let ghost s = ints(self.layer4.outputs@);
        let mut max_index: usize = 0;
        let mut max_value: i64 = self.layer4.outputs[0];
        let mut i: usize = 1;
        proof {
            assert(s.take(1).len() == 1);
            assert(argmax_spec(s.take(1)) == 0);
            assert(s.take(1)[0] == s[0]);
        }
        while i < self.layer4.outputs.len()
            invariant
                self.layer4.outputs@.len() == 3,
                s == ints(self.layer4.outputs@),
                1 <= i <= 3,
                (max_index as int) < i,
                max_index as int == argmax_spec(s.take(i as int)),
                max_value as int == s[max_index as int],
            decreases 3 - i,
        {
            proof {
                let s1 = s.take(i + 1);
                assert(s1.drop_last() =~= s.take(i as int));
                assert(s1.last() == s[i as int]);
            }
            if self.layer4.outputs[i] > max_value {
                max_index = i;
                max_value = self.layer4.outputs[i];
            }
            i += 1;
        }
        proof {
            assert(s.take(3) =~= s);
        }
        max_index
    }

    /// One simulation tick: decide an action from the current position and
    /// target, apply its thrust impulse to the velocity, integrate velocity
    /// and position, and reset the acceleration.
    pub fn update(&mut self)
        requires
            old(self).wf(),
        ensures
            final(self).wf(),
            is_updated(*final(self), *old(self)),
    {
        let inputs = vec![self.pos.x, self.pos.y, self.target.x, self.target.y];
        proof {
            assert(ints(inputs@) =~= input_vector(*self));
        }
        let a = self.decide_action(&inputs);
        if a == 0 {
            self.vel.y = fx_add(self.vel.y, THRUST);
        } else if a == 1 {
            self.vel.x = fx_add(self.vel.x, THRUST);
        } else {
            self.vel.x = fx_sub(self.vel.x, THRUST);
        }
        self.vel.x = fx_add(self.vel.x, self.acc.x);
        self.vel.y = fx_add(self.vel.y, self.acc.y);
        self.pos.x = fx_add(self.pos.x, self.vel.x);
        self.pos.y = fx_add(self.pos.y, self.vel.y);
        self.acc = Vec2 { x: 0, y: 0 };
    }
}

} // verus!
