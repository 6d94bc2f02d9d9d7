use rockets::layer::Layer;
use rockets::GaError;

fn zero_layer(n_inputs: usize, n_neurons: usize) -> Layer {
    Layer::new_with_values(
        n_inputs,
        n_neurons,
        vec![vec![0i64; n_inputs]; n_neurons],
        vec![0i64; n_neurons],
    )
}

#[test]
fn forward_output_length_matches_neurons() {
    let mut l = Layer::new_with_values(
        2,
        3,
        vec![vec![1_000_000, 2_000_000], vec![0, 0], vec![500_000, 0]],
        vec![1_000, 0, 7],
    );
    l.forward(&vec![3_000_000, 4_000_000]);
    assert_eq!(l.outputs.len(), 3);
}

#[test]
fn forward_is_deterministic_across_calls_and_layers() {
    let weights = vec![vec![1_500_000, -2_000_000], vec![250_000, 250_000]];
    let biases = vec![42, -42];
    let mut a = Layer::new_with_values(2, 2, weights.clone(), biases.clone());
    let mut b = Layer::new_with_values(2, 2, weights, biases);
    let inputs = vec![7_000_000, -1_000_000];
    a.forward(&inputs);
    let first = a.outputs.clone();
    a.forward(&inputs);
    b.forward(&inputs);
    assert_eq!(a.outputs, first);
    assert_eq!(b.outputs, first);
}

#[test]
fn forward_computes_dot_plus_bias() {
    let mut l = Layer::new_with_values(
        2,
        3,
        vec![vec![1_000_000, 2_000_000], vec![0, 0], vec![500_000, 0]],
        vec![1_000, 0, 7],
    );
    l.forward(&vec![3_000_000, 4_000_000]);
    // neuron 0: 1.0 * 3.0 + 2.0 * 4.0 + 0.001 = 11.001
    // neuron 1: 0
    // neuron 2: 0.5 * 3.0 + 0.000007 = 1.500007
    assert_eq!(l.outputs, vec![11_001_000, 0, 1_500_007]);
}

#[test]
fn relu_clears_negatives_and_keeps_nonnegatives() {
    let mut l = Layer::new_with_values(
        1,
        4,
        vec![vec![1_000_000], vec![-1_000_000], vec![0], vec![2_000_000]],
        vec![0, 0, 5, -1],
    );
    l.forward(&vec![2_000_000]);
    assert_eq!(l.outputs, vec![2_000_000, -2_000_000, 5, 3_999_999]);
    l.relu();
    assert_eq!(l.outputs, vec![2_000_000, 0, 5, 3_999_999]);
    for &x in l.outputs.iter() {
        assert!(x >= 0);
    }
}

#[test]
fn softmax_equal_logits_gives_uniform_distribution() {
    let mut l = zero_layer(1, 3);
    l.forward(&vec![0]);
    let res = l.softmax();
    assert!(res.is_ok());
    assert_eq!(l.outputs, vec![333_333, 333_333, 333_333]);
    assert_eq!(l.outputs.iter().sum::<i64>(), 999_999);
}

#[test]
fn softmax_known_logits_give_known_distribution() {
    let mut l = Layer::new_with_values(
        1,
        3,
        vec![vec![0], vec![0], vec![0]],
        vec![0, -693_147, -1_386_294],
    );
    l.forward(&vec![0]);
    let res = l.softmax();
    assert!(res.is_ok());
    assert_eq!(l.outputs, vec![571_463, 285_769, 142_766]);
}

#[test]
fn softmax_elements_in_unit_interval_and_sum_near_one() {
    let mut l = Layer::new_with_values(
        1,
        4,
        vec![vec![0], vec![0], vec![0], vec![0]],
        vec![1_234_567, -9_876_543, 0, 555_555],
    );
    l.forward(&vec![0]);
    l.softmax().unwrap();
    let mut sum: i64 = 0;
    for &x in l.outputs.iter() {
        assert!(0 <= x && x <= 1_000_000);
        sum += x;
    }
    assert!(1_000_000 - 4 <= sum && sum <= 1_000_000);
}

#[test]
fn softmax_survives_huge_magnitude_inputs() {
    // Saturating pre-activations near the domain bound: the shift by the
    // maximum keeps the exponentials tame and the result normalized.
    let mut l = Layer::new_with_values(
        1,
        3,
        vec![vec![0], vec![0], vec![0]],
        vec![900_000_000_000_000, 900_000_000_000_000, 900_000_000_000_000],
    );
    l.forward(&vec![0]);
    l.softmax().unwrap();
    assert_eq!(l.outputs, vec![333_333, 333_333, 333_333]);
}

#[test]
fn softmax_before_any_forward_pass_is_rejected() {
    let mut l = zero_layer(2, 3);
    assert_eq!(l.outputs.len(), 0);
    let res = l.softmax();
    assert_eq!(res, Err(GaError::EmptyActivation));
    assert_eq!(l.outputs.len(), 0);
}

#[test]
fn forward_checked_rejects_wrong_input_length() {
    let mut l = zero_layer(3, 2);
    let res = l.forward_checked(&vec![1, 2]);
    assert_eq!(res, Err(GaError::ShapeMismatch));
    assert_eq!(l.outputs.len(), 0);
    let res2 = l.forward_checked(&vec![1, 2, 3]);
    assert!(res2.is_ok());
    assert_eq!(l.outputs.len(), 2);
}

#[test]
fn new_layer_has_requested_shape_and_bounded_parameters() {
    let l = Layer::new(4, 3);
    assert_eq!(l.n_inputs, 4);
    assert_eq!(l.n_neurons, 3);
    assert_eq!(l.weights.len(), 3);
    for row in l.weights.iter() {
        assert_eq!(row.len(), 4);
        for &w in row.iter() {
            // a draw from [-5, 5) scaled by a draw from [0, 1]
            assert!(-5_000_000 <= w && w <= 5_000_000);
        }
    }
    assert_eq!(l.biases.len(), 3);
    for &b in l.biases.iter() {
        assert!(-5_000_000 <= b && b <= 5_000_000);
    }
    assert_eq!(l.outputs.len(), 0);
}

#[test]
fn copy_preserves_everything() {
    let mut l = Layer::new_with_values(2, 2, vec![vec![1, 2], vec![3, 4]], vec![5, 6]);
    l.forward(&vec![1_000_000, 1_000_000]);
    let c = l.copy();
    assert_eq!(c.n_inputs, 2);
    assert_eq!(c.n_neurons, 2);
    assert_eq!(c.weights, l.weights);
    assert_eq!(c.biases, l.biases);
    assert_eq!(c.outputs, l.outputs);
}
