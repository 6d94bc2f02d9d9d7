//! The generational loop: tick every rocket, and at each horizon boundary
//! evaluate fitness, build the mating pool, and breed the next generation.

use vstd::prelude::*;
use crate::fixed::in_range;
use crate::rocket::{
    Rocket, Vec2, fitness_of, post_update_fitness, is_updated, is_mix_layer, same_rocket,
    lemma_updated_fitness,
};
use crate::rng::rand_range_usize;
use crate::GaError;

verus! {

/// Total fitness of a sequence of rockets.
pub open spec fn total_fitness(rs: Seq<Rocket>, width: int) -> int
    decreases rs.len(),
{
    if rs.len() == 0 {
        0
    } else {
        total_fitness(rs.drop_last(), width) + fitness_of(rs.last(), width)
    }
}

/// Total fitness the rockets will have after one more tick each.
pub open spec fn post_tick_total_fitness(rs: Seq<Rocket>, width: int) -> int
    decreases rs.len(),
{
    if rs.len() == 0 {
        0
    } else {
        post_tick_total_fitness(rs.drop_last(), width) + post_update_fitness(rs.last(), width)
    }
}

/// `x` is a faithful copy of some rocket of `rs` whose fitness is positive.
pub open spec fn from_positive_parent(x: Rocket, rs: Seq<Rocket>, width: int) -> bool {
    exists|j: int|
        0 <= j < rs.len() && fitness_of(#[trigger] rs[j], width) >= 1 && same_rocket(x, rs[j])
}

/// `c` was bred by crossing over two members of `pool`, layer by layer.
pub open spec fn bred_from(c: Rocket, pool: Seq<Rocket>) -> bool {
    exists|a: int, b: int|
        0 <= a < pool.len() && 0 <= b < pool.len() && is_mix_layer(
            c.layer1,
            (#[trigger] pool[a]).layer1,
            (#[trigger] pool[b]).layer1,
        ) && is_mix_layer(c.layer2, pool[a].layer2, pool[b].layer2) && is_mix_layer(
            c.layer3,
            pool[a].layer3,
            pool[b].layer3,
        ) && is_mix_layer(c.layer4, pool[a].layer4, pool[b].layer4)
}

/// A child at the launch position: zero velocity and acceleration, centered
/// horizontally, half the window height below the center.
pub open spec fn at_launch(r: Rocket, height: int) -> bool {
    &&& r.pos.x == 0
    &&& r.pos.y as int == Rocket::launch_y_spec(height)
    &&& r.vel == (Vec2 { x: 0i64, y: 0i64 })
    &&& r.acc == (Vec2 { x: 0i64, y: 0i64 })
}

/// A generation advanced elementwise by one tick keeps, in total, exactly
/// the fitness the pre-tick states predicted.
pub proof fn lemma_total_fitness_after_tick(post: Seq<Rocket>, pre: Seq<Rocket>, width: int)
    requires
        post.len() == pre.len(),
        forall|i: int| 0 <= i < pre.len() ==> is_updated(#[trigger] post[i], pre[i]),
    ensures
        total_fitness(post, width) == post_tick_total_fitness(pre, width),
    decreases pre.len(),
{
    if pre.len() > 0 {
        assert forall|i: int| 0 <= i < pre.len() - 1 implies is_updated(
            #[trigger] post.drop_last()[i],
            pre.drop_last()[i],
        ) by {
            assert(post.drop_last()[i] == post[i]);
            assert(pre.drop_last()[i] == pre[i]);
        }
        lemma_total_fitness_after_tick(post.drop_last(), pre.drop_last(), width);
        lemma_updated_fitness(post.last(), pre.last(), width);
    }
}

pub struct Population {
    pub rockets: Vec<Rocket>,
    pub tick_count: u32,
    pub generation_horizon: u32,
    pub width: u32,
    pub height: u32,
    pub target: Vec2,
    pub population_size: u32,
}

impl Population {
    /// Well-formedness: a fixed positive number of well-formed rockets that
    /// all chase the same in-range target, with the tick counter strictly
    /// inside the generation.
    pub open spec fn wf(&self) -> bool {
        &&& self.population_size >= 1
        &&& self.generation_horizon >= 1
        &&& self.rockets@.len() == self.population_size as int
        &&& forall|i: int| 0 <= i < self.rockets@.len() ==> (#[trigger] self.rockets@[i]).wf()
        &&& forall|i: int|
            0 <= i < self.rockets@.len() ==> (#[trigger] self.rockets@[i]).target == self.target
        &&& self.tick_count < self.generation_horizon
        &&& in_range(self.target.x as int)
        &&& in_range(self.target.y as int)
    }

    /// A fresh population of randomly initialized rockets at the launch
    /// position.
    pub fn new(
        width: u32,
        height: u32,
        target: Vec2,
        population_size: u32,
        generation_horizon: u32,
    ) -> (p: Population)
        requires
            population_size >= 1,
            generation_horizon >= 1,
            in_range(target.x as int),
            in_range(target.y as int),
        ensures
            p.wf(),
            p.tick_count == 0,
            p.population_size == population_size,
            p.generation_horizon == generation_horizon,
            p.width == width,
            p.height == height,
            p.target == target,
            p.rockets@.len() == population_size as int,
    {
        let mut rockets: Vec<Rocket> = Vec::new();
        let mut i: u32 = 0;
        while i < population_size
            invariant
                i <= population_size,
                rockets@.len() == i as int,
                in_range(target.x as int),
                in_range(target.y as int),
                forall|k: int| 0 <= k < rockets@.len() ==> (#[trigger] rockets@[k]).wf(),
                forall|k: int|
                    0 <= k < rockets@.len() ==> (#[trigger] rockets@[k]).target == target,
            decreases population_size - i,
        {
            rockets.push(Rocket::new(width, height, target));
            i += 1;
        }
        Population {
            rockets,
            tick_count: 0,
            generation_horizon,
            width,
            height,
            target,
            population_size,
        }
    }

    /// The mating pool: each rocket contributes as many deep copies of
    /// itself as its fitness score.  A rocket with fitness zero contributes
    /// nothing, so every pool member stems from a positively scored rocket.
    pub fn evaluation(&self, width: u32) -> (pool: Vec<Rocket>)
        requires
            forall|i: int| 0 <= i < self.rockets@.len() ==> (#[trigger] self.rockets@[i]).wf(),
        ensures
            pool@.len() == total_fitness(self.rockets@, width as int),
            forall|k: int| 0 <= k < pool@.len() ==> (#[trigger] pool@[k]).wf(),
            forall|k: int|
                0 <= k < pool@.len() ==> from_positive_parent(
                    #[trigger] pool@[k],
                    self.rockets@,
                    width as int,
                ),
    {
        let mut pool: Vec<Rocket> = Vec::new();
        let mut i: usize = 0;
        while i < self.rockets.len()
            invariant
                i <= self.rockets@.len(),
                forall|k: int| 0 <= k < self.rockets@.len() ==> (#[trigger] self.rockets@[k]).wf(),
                pool@.len() == total_fitness(self.rockets@.take(i as int), width as int),
                forall|k: int| 0 <= k < pool@.len() ==> (#[trigger] pool@[k]).wf(),
                forall|k: int|
                    0 <= k < pool@.len() ==> from_positive_parent(
                        #[trigger] pool@[k],
                        self.rockets@,
                        width as int,
                    ),
            decreases self.rockets@.len() - i,
        {
            let times_to_populate = self.rockets[i].evaluate(width);
            let mut c: u32 = 0;
            while c < times_to_populate
                invariant
                    i < self.rockets@.len(),
                    c <= times_to_populate,
                    forall|k: int|
                        0 <= k < self.rockets@.len() ==> (#[trigger] self.rockets@[k]).wf(),
                    times_to_populate as int == fitness_of(self.rockets@[i as int], width as int),
                    pool@.len() == total_fitness(self.rockets@.take(i as int), width as int)
                        + c as int,
                    forall|k: int| 0 <= k < pool@.len() ==> (#[trigger] pool@[k]).wf(),
                    forall|k: int|
                        0 <= k < pool@.len() ==> from_positive_parent(
                            #[trigger] pool@[k],
                            self.rockets@,
                            width as int,
                        ),
                decreases times_to_populate - c,
            {
                let ghost oldpool = pool@;
                pool.push(self.rockets[i].copy());
                proof {
                    assert forall|k: int| 0 <= k < pool@.len() implies from_positive_parent(
                        #[trigger] pool@[k],
                        self.rockets@,
                        width as int,
                    ) by {
                        if k < oldpool.len() {
                            assert(pool@[k] == oldpool[k]);
                            assert(from_positive_parent(oldpool[k], self.rockets@, width as int));
                        } else {
                            assert(fitness_of(self.rockets@[i as int], width as int) >= 1);
                            assert(same_rocket(pool@[k], self.rockets@[i as int]));
                        }
                    }
                }
                c += 1;
            }
            proof {
                let t1 = self.rockets@.take(i + 1);
                assert(t1.drop_last() =~= self.rockets@.take(i as int));
                assert(t1.last() == self.rockets@[i as int]);
            }
            i += 1;
        }
        proof {
            assert(self.rockets@.take(self.rockets@.len() as int) =~= self.rockets@);
        }
        pool
    }

    /// The next generation: `population_size` children, each bred by
    /// crossing over two parents drawn independently and uniformly from the
    /// mating pool.
    pub fn selection(
        &self,
        mating_pool: &Vec<Rocket>,
        population_size: u32,
        height: u32,
    ) -> (new_population: Vec<Rocket>)
        requires
            mating_pool@.len() > 0,
            forall|k: int| 0 <= k < mating_pool@.len() ==> (#[trigger] mating_pool@[k]).wf(),
            forall|k: int|
                0 <= k < mating_pool@.len() ==> (#[trigger] mating_pool@[k]).target == self.target,
        ensures
            new_population@.len() == population_size as int,
            forall|k: int| 0 <= k < new_population@.len() ==> (#[trigger] new_population@[k]).wf(),
            forall|k: int|
                0 <= k < new_population@.len() ==> (#[trigger] new_population@[k]).target
                    == self.target,
            forall|k: int|
                0 <= k < new_population@.len() ==> at_launch(
                    #[trigger] new_population@[k],
                    height as int,
                ),
            forall|k: int|
                0 <= k < new_population@.len() ==> bred_from(
                    #[trigger] new_population@[k],
                    mating_pool@,
                ),
    {
        let mut new_population: Vec<Rocket> = Vec::new();
        let mut i: u32 = 0;
        while i < population_size
            invariant
                i <= population_size,
                mating_pool@.len() > 0,
                forall|k: int| 0 <= k < mating_pool@.len() ==> (#[trigger] mating_pool@[k]).wf(),
                forall|k: int|
                    0 <= k < mating_pool@.len() ==> (#[trigger] mating_pool@[k]).target
                        == self.target,
                new_population@.len() == i as int,
                forall|k: int|
                    0 <= k < new_population@.len() ==> (#[trigger] new_population@[k]).wf(),
                forall|k: int|
                    0 <= k < new_population@.len() ==> (#[trigger] new_population@[k]).target
                        == self.target,
                forall|k: int|
                    0 <= k < new_population@.len() ==> at_launch(
                        #[trigger] new_population@[k],
                        height as int,
                    ),
                forall|k: int|
                    0 <= k < new_population@.len() ==> bred_from(
                        #[trigger] new_population@[k],
                        mating_pool@,
                    ),
            decreases population_size - i,
        {
            let ia = rand_range_usize(0, mating_pool.len());
            let ib = rand_range_usize(0, mating_pool.len());
            let child = mating_pool[ia].cross_over(&mating_pool[ib], height);
            let ghost oldpop = new_population@;
            new_population.push(child);
            proof {
                assert forall|k: int| 0 <= k < new_population@.len() implies bred_from(
                    #[trigger] new_population@[k],
                    mating_pool@,
                ) by {
                    if k < oldpop.len() {
                        assert(new_population@[k] == oldpop[k]);
                        assert(bred_from(oldpop[k], mating_pool@));
                    } else {
                        assert(new_population@[k] == child);
                        assert(0 <= ia as int && (ia as int) < mating_pool@.len());
                        assert(0 <= ib as int && (ib as int) < mating_pool@.len());
                        assert(is_mix_layer(
                            child.layer1,
                            (mating_pool@[ia as int]).layer1,
                            (mating_pool@[ib as int]).layer1,
                        ));
                        assert(is_mix_layer(
                            child.layer2,
                            mating_pool@[ia as int].layer2,
                            mating_pool@[ib as int].layer2,
                        ));
                        assert(is_mix_layer(
                            child.layer3,
                            mating_pool@[ia as int].layer3,
                            mating_pool@[ib as int].layer3,
                        ));
                        assert(is_mix_layer(
                            child.layer4,
                            mating_pool@[ia as int].layer4,
                            mating_pool@[ib as int].layer4,
                        ));
                        assert(bred_from(child, mating_pool@));
                    }
                }
            }
            i += 1;
        }
        new_population
    }

    /// One external step: tick every rocket, and at the horizon boundary
    /// replace the generation.  Fails with `EmptyMatingPool` exactly when
    /// the boundary is reached and every rocket's fitness is zero.
    pub fn tick(&mut self) -> (res: Result<(), GaError>)
        requires
            old(self).wf(),
        ensures
            final(self).wf(),
            final(self).population_size == old(self).population_size,
            final(self).generation_horizon == old(self).generation_horizon,
            final(self).width == old(self).width,
            final(self).height == old(self).height,
            final(self).target == old(self).target,
            final(self).rockets@.len() == old(self).rockets@.len(),
            old(self).tick_count + 1 < old(self).generation_horizon ==> (res is Ok
                && final(self).tick_count == old(self).tick_count + 1
                && (forall|i: int|
                    0 <= i < old(self).rockets@.len() ==> is_updated(
                        #[trigger] final(self).rockets@[i],
                        old(self).rockets@[i],
                    ))),
            old(self).tick_count + 1 >= old(self).generation_horizon ==> final(self).tick_count
                == 0,
            res is Err <==> (old(self).tick_count + 1 >= old(self).generation_horizon
                && post_tick_total_fitness(old(self).rockets@, old(self).width as int) == 0),
            res is Err ==> (res == Err::<(), GaError>(GaError::EmptyMatingPool)
                && (forall|i: int|
                    0 <= i < old(self).rockets@.len() ==> is_updated(
                        #[trigger] final(self).rockets@[i],
                        old(self).rockets@[i],
                    ))),
            (old(self).tick_count + 1 >= old(self).generation_horizon && res is Ok) ==> (forall|
                k: int,
            |
                0 <= k < final(self).rockets@.len() ==> at_launch(
                    #[trigger] final(self).rockets@[k],
                    old(self).height as int,
                )),
    {
        let ghost pre = self.rockets@;
        let mut updated: Vec<Rocket> = Vec::new();
        let mut i: usize = 0;
        while i < self.rockets.len()
            invariant
                i <= self.rockets@.len(),
                self.rockets@ == pre,
                forall|k: int| 0 <= k < pre.len() ==> (#[trigger] pre[k]).wf(),
                updated@.len() == i as int,
                forall|k: int|
                    0 <= k < updated@.len() ==> is_updated(#[trigger] updated@[k], pre[k]),
                forall|k: int| 0 <= k < updated@.len() ==> (#[trigger] updated@[k]).wf(),
                forall|k: int|
                    0 <= k < updated@.len() ==> (#[trigger] updated@[k]).target == pre[k].target,
            decreases self.rockets@.len() - i,
        {
            let mut r = self.rockets[i].copy();
            r.update();
            updated.push(r);
            i += 1;
        }
        self.rockets = updated;
        self.tick_count = self.tick_count + 1;
        if self.tick_count >= self.generation_horizon {
            let pool = self.evaluation(self.width);
            proof {
                lemma_total_fitness_after_tick(self.rockets@, pre, self.width as int);
                assert forall|k: int| 0 <= k < pool@.len() implies (#[trigger] pool@[k]).target
                    == self.target by {
                    let j = choose|j: int|
                        0 <= j < self.rockets@.len() && fitness_of(
                            #[trigger] self.rockets@[j],
                            self.width as int,
                        ) >= 1 && same_rocket(pool@[k], self.rockets@[j]);
                    assert(self.rockets@[j].target == pre[j].target);
                }
            }
            if pool.len() == 0 {
                self.tick_count = 0;
                return Err(GaError::EmptyMatingPool);
            }
            let new_rockets = self.selection(&pool, self.population_size, self.height);
            self.rockets = new_rockets;
            self.tick_count = 0;
            Ok(())
        } else {
            Ok(())
        }
    }
}

} // verus!
