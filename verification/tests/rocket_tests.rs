use rockets::layer::Layer;
use rockets::rocket::{Rocket, Vec2};

fn zero_layer(n_inputs: usize, n_neurons: usize) -> Layer {
    Layer::new_with_values(
        n_inputs,
        n_neurons,
        vec![vec![0i64; n_inputs]; n_neurons],
        vec![0i64; n_neurons],
    )
}

/// A rocket whose three hidden layers pass zeroes through and whose head
/// produces the given pre-softmax logits whatever the input.
fn rocket_with_head_biases(biases: Vec<i64>, pos: Vec2, target: Vec2) -> Rocket {
    let head = Layer::new_with_values(3, 3, vec![vec![0, 0, 0]; 3], biases);
    Rocket::new_with_values(
        pos,
        Vec2 { x: 0, y: 0 },
        Vec2 { x: 0, y: 0 },
        zero_layer(4, 3),
        zero_layer(3, 3),
        zero_layer(3, 3),
        head,
        target,
    )
}

#[test]
fn decide_action_returns_index_of_softmax_maximum() {
    // Head logits ln(1/7), 0, ln(2/7): the softmax output is the fixed-point
    // rendering of [0.1, 0.7, 0.2], so the action must be 1.
    let mut r = rocket_with_head_biases(
        vec![-1_945_910, 0, -1_252_763],
        Vec2 { x: 0, y: 0 },
        Vec2 { x: 0, y: 0 },
    );
    let a = r.decide_action(&vec![0, 0, 0, 0]);
    assert_eq!(r.layer4.outputs, vec![99_832, 700_285, 199_882]);
    assert_eq!(a, 1);
}

#[test]
fn decide_action_breaks_ties_toward_lowest_index() {
    let mut r = rocket_with_head_biases(
        vec![0, 0, 0],
        Vec2 { x: 0, y: 0 },
        Vec2 { x: 0, y: 0 },
    );
    let a = r.decide_action(&vec![0, 0, 0, 0]);
    assert_eq!(a, 0);
}

#[test]
fn update_with_action_up_adds_vertical_thrust() {
    // Head logits put the maximum at index 0: thrust up by 0.1.
    let mut r = rocket_with_head_biases(
        vec![0, -1_000_000, -1_000_000],
        Vec2 { x: 0, y: 0 },
        Vec2 { x: 0, y: 300_000_000 },
    );
    r.update();
    assert_eq!((r.vel.x, r.vel.y), (0, 100_000));
    assert_eq!((r.pos.x, r.pos.y), (0, 100_000));
    assert_eq!((r.acc.x, r.acc.y), (0, 0));
}

#[test]
fn update_with_action_right_adds_horizontal_thrust() {
    let mut r = rocket_with_head_biases(
        vec![-1_000_000, 0, -1_000_000],
        Vec2 { x: 2_000_000, y: 5_000_000 },
        Vec2 { x: 0, y: 0 },
    );
    r.update();
    assert_eq!((r.vel.x, r.vel.y), (100_000, 0));
    assert_eq!((r.pos.x, r.pos.y), (2_100_000, 5_000_000));
    assert_eq!((r.acc.x, r.acc.y), (0, 0));
}

#[test]
fn update_with_action_left_subtracts_horizontal_thrust() {
    let mut r = rocket_with_head_biases(
        vec![-1_000_000, -1_000_000, 0],
        Vec2 { x: 0, y: 0 },
        Vec2 { x: 0, y: 0 },
    );
    r.update();
    assert_eq!((r.vel.x, r.vel.y), (-100_000, 0));
    assert_eq!((r.pos.x, r.pos.y), (-100_000, 0));
}

#[test]
fn evaluate_at_target_scores_one_hundred() {
    let r = rocket_with_head_biases(
        vec![0, 0, 0],
        Vec2 { x: 0, y: 0 },
        Vec2 { x: 0, y: 0 },
    );
    assert_eq!(r.evaluate(800), 100);
}

#[test]
fn evaluate_at_world_width_scores_zero() {
    let r = rocket_with_head_biases(
        vec![0, 0, 0],
        Vec2 { x: 0, y: 800_000_000 },
        Vec2 { x: 0, y: 0 },
    );
    assert_eq!(r.evaluate(800), 0);
}

#[test]
fn evaluate_beyond_world_width_scores_zero() {
    let r = rocket_with_head_biases(
        vec![0, 0, 0],
        Vec2 { x: 900_000_000, y: 900_000_000 },
        Vec2 { x: 0, y: 0 },
    );
    assert_eq!(r.evaluate(800), 0);
}

#[test]
fn evaluate_decreases_with_distance() {
    let target = Vec2 { x: 0, y: 0 };
    let scores: Vec<u32> = [0i64, 200_000_000, 400_000_000, 600_000_000, 800_000_000]
        .iter()
        .map(|&y| {
            rocket_with_head_biases(vec![0, 0, 0], Vec2 { x: 0, y }, target).evaluate(800)
        })
        .collect();
    assert_eq!(scores, vec![100, 75, 50, 25, 0]);
    for pair in scores.windows(2) {
        assert!(pair[0] >= pair[1]);
    }
}

#[test]
fn cross_over_layer_at_mixes_by_the_split_rule() {
    let a = Layer::new_with_values(
        2,
        3,
        vec![vec![10, 11], vec![20, 21], vec![30, 31]],
        vec![1, 2, 3],
    );
    let b = Layer::new_with_values(
        2,
        3,
        vec![vec![-10, -11], vec![-20, -21], vec![-30, -31]],
        vec![-1, -2, -3],
    );
    // Rows strictly above the split come from the first parent.
    let (w, bi) = Rocket::cross_over_layer_at(&a, &b, 1, 0);
    assert_eq!(w, vec![vec![-10, -11], vec![-20, -21], vec![30, 31]]);
    assert_eq!(bi, vec![-1, 2, 3]);
}

#[test]
fn cross_over_layer_rows_come_from_exactly_one_parent() {
    let a = Layer::new_with_values(
        2,
        3,
        vec![vec![10, 11], vec![20, 21], vec![30, 31]],
        vec![1, 2, 3],
    );
    let b = Layer::new_with_values(
        2,
        3,
        vec![vec![-10, -11], vec![-20, -21], vec![-30, -31]],
        vec![-1, -2, -3],
    );
    let (w, bi) = Rocket::cross_over_layer(a.copy(), b.copy());
    assert_eq!(w.len(), 3);
    assert_eq!(bi.len(), 3);
    for i in 0..3 {
        assert!(w[i] == a.weights[i] || w[i] == b.weights[i]);
        assert!(bi[i] == a.biases[i] || bi[i] == b.biases[i]);
    }
}

#[test]
fn cross_over_child_is_reset_and_well_shaped() {
    let target = Vec2 { x: 0, y: 300_000_000 };
    let p1 = Rocket::new(800, 600, target);
    let p2 = Rocket::new(800, 600, target);
    let child = p1.cross_over(&p2, 600);
    assert_eq!((child.pos.x, child.pos.y), (0, -300_000_000));
    assert_eq!((child.vel.x, child.vel.y), (0, 0));
    assert_eq!((child.acc.x, child.acc.y), (0, 0));
    assert_eq!(child.target, target);
    for (layer, n_in) in [
        (&child.layer1, 4),
        (&child.layer2, 3),
        (&child.layer3, 3),
        (&child.layer4, 3),
    ] {
        assert_eq!(layer.n_inputs, n_in);
        assert_eq!(layer.n_neurons, 3);
        assert_eq!(layer.weights.len(), 3);
        for row in layer.weights.iter() {
            assert_eq!(row.len(), n_in);
        }
        assert_eq!(layer.biases.len(), 3);
    }
}

#[test]
fn cross_over_rows_are_bit_identical_to_a_parent() {
    let target = Vec2 { x: 0, y: 0 };
    let p1 = Rocket::new(800, 600, target);
    let p2 = Rocket::new(800, 600, target);
    let child = p1.cross_over(&p2, 600);
    for i in 0..3 {
        assert!(
            child.layer1.weights[i] == p1.layer1.weights[i]
                || child.layer1.weights[i] == p2.layer1.weights[i]
        );
        assert!(
            child.layer1.biases[i] == p1.layer1.biases[i]
                || child.layer1.biases[i] == p2.layer1.biases[i]
        );
    }
}

#[test]
fn new_rocket_launches_centered_below() {
    let r = Rocket::new(800, 600, Vec2 { x: 0, y: 300_000_000 });
    assert_eq!((r.pos.x, r.pos.y), (0, -300_000_000));
    assert_eq!((r.vel.x, r.vel.y), (0, 0));
    assert_eq!((r.acc.x, r.acc.y), (0, 0));
    assert_eq!(r.layer1.n_inputs, 4);
    assert_eq!(r.layer4.n_neurons, 3);
}

#[test]
fn rocket_copy_is_deep_and_faithful() {
    let r = Rocket::new(800, 600, Vec2 { x: 7, y: 8 });
    let c = r.copy();
    assert_eq!(c.pos, r.pos);
    assert_eq!(c.target, r.target);
    assert_eq!(c.layer1.weights, r.layer1.weights);
    assert_eq!(c.layer2.biases, r.layer2.biases);
    assert_eq!(c.layer4.weights, r.layer4.weights);
}
