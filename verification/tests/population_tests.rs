use rockets::layer::Layer;
use rockets::population::Population;
use rockets::rocket::{Rocket, Vec2};
use rockets::GaError;

fn zero_layer(n_inputs: usize, n_neurons: usize) -> Layer {
    Layer::new_with_values(
        n_inputs,
        n_neurons,
        vec![vec![0i64; n_inputs]; n_neurons],
        vec![0i64; n_neurons],
    )
}

fn still_rocket(pos: Vec2, target: Vec2) -> Rocket {
    Rocket::new_with_values(
        pos,
        Vec2 { x: 0, y: 0 },
        Vec2 { x: 0, y: 0 },
        zero_layer(4, 3),
        zero_layer(3, 3),
        zero_layer(3, 3),
        zero_layer(3, 3),
        target,
    )
}

#[test]
fn population_new_has_requested_size_and_zero_ticks() {
    let target = Vec2 { x: 0, y: 300_000_000 };
    let p = Population::new(800, 600, target, 5, 200);
    assert_eq!(p.rockets.len(), 5);
    assert_eq!(p.tick_count, 0);
    assert_eq!(p.population_size, 5);
    assert_eq!(p.generation_horizon, 200);
    for r in p.rockets.iter() {
        assert_eq!(r.target, target);
        assert_eq!((r.pos.x, r.pos.y), (0, -300_000_000));
    }
}

#[test]
fn mating_pool_size_is_the_sum_of_fitness_scores() {
    let target = Vec2 { x: 0, y: 0 };
    // Fitness 100, 0 and 50 over a world 800 pixels wide.
    let rockets = vec![
        still_rocket(Vec2 { x: 0, y: 0 }, target),
        still_rocket(Vec2 { x: 0, y: 800_000_000 }, target),
        still_rocket(Vec2 { x: 0, y: 400_000_000 }, target),
    ];
    let p = Population {
        rockets,
        tick_count: 0,
        generation_horizon: 200,
        width: 800,
        height: 600,
        target,
        population_size: 3,
    };
    assert_eq!(p.rockets[0].evaluate(800), 100);
    assert_eq!(p.rockets[1].evaluate(800), 0);
    assert_eq!(p.rockets[2].evaluate(800), 50);
    let pool = p.evaluation(800);
    assert_eq!(pool.len(), 150);
    // The zero-fitness rocket contributes nothing at all.
    for member in pool.iter() {
        assert_ne!(member.pos.y, 800_000_000);
    }
}

#[test]
fn selection_breeds_the_requested_number_of_reset_children() {
    let target = Vec2 { x: 0, y: 0 };
    let rockets = vec![
        still_rocket(Vec2 { x: 0, y: 0 }, target),
        still_rocket(Vec2 { x: 0, y: 400_000_000 }, target),
    ];
    let p = Population {
        rockets,
        tick_count: 0,
        generation_horizon: 200,
        width: 800,
        height: 600,
        target,
        population_size: 2,
    };
    let pool = p.evaluation(800);
    assert_eq!(pool.len(), 150);
    let next = p.selection(&pool, 10, 600);
    assert_eq!(next.len(), 10);
    for child in next.iter() {
        assert_eq!((child.pos.x, child.pos.y), (0, -300_000_000));
        assert_eq!((child.vel.x, child.vel.y), (0, 0));
        assert_eq!((child.acc.x, child.acc.y), (0, 0));
        assert_eq!(child.target, target);
    }
}

#[test]
fn tick_count_increments_and_resets_exactly_at_the_horizon() {
    let target = Vec2 { x: 0, y: 0 };
    let rockets = vec![
        still_rocket(Vec2 { x: 0, y: 0 }, target),
        still_rocket(Vec2 { x: 100_000_000, y: 0 }, target),
    ];
    let mut p = Population {
        rockets,
        tick_count: 0,
        generation_horizon: 3,
        width: 800,
        height: 600,
        target,
        population_size: 2,
    };
    assert!(p.tick().is_ok());
    assert_eq!(p.tick_count, 1);
    assert_eq!(p.rockets.len(), 2);
    assert!(p.tick().is_ok());
    assert_eq!(p.tick_count, 2);
    assert_eq!(p.rockets.len(), 2);
    assert!(p.tick().is_ok());
    assert_eq!(p.tick_count, 0);
    assert_eq!(p.rockets.len(), 2);
}

#[test]
fn population_size_is_constant_across_generations() {
    let target = Vec2 { x: 0, y: 0 };
    let mut p = Population::new(800, 600, target, 4, 2);
    for _ in 0..6 {
        // Every rocket starts at the launch position 300 pixels below the
        // target, well inside the 800-pixel world, so no generation can
        // score all zeroes.
        assert!(p.tick().is_ok());
        assert_eq!(p.rockets.len(), 4);
    }
    assert_eq!(p.tick_count, 0);
}

#[test]
fn tick_reports_an_empty_mating_pool() {
    // A world one pixel wide with the target a thousand pixels away: every
    // fitness is zero at the first boundary.
    let target = Vec2 { x: 0, y: 1_000_000_000 };
    let mut p = Population::new(1, 600, target, 3, 1);
    let res = p.tick();
    assert_eq!(res, Err(GaError::EmptyMatingPool));
    assert_eq!(p.tick_count, 0);
    assert_eq!(p.rockets.len(), 3);
}
