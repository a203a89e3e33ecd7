use autograd::graph::Graph;

#[test]
fn add_value_and_gradients() {
    let mut g = Graph::new();
    let x = g.value((2.0f64).to_bits());
    let y = g.value((3.0f64).to_bits());
    let s = g.add(x, y);
    assert_eq!(f64::from_bits(g.data(s)), 5.0);
    g.compute_gradients(s);
    assert_eq!(f64::from_bits(g.gradient(s)), 1.0);
    assert_eq!(f64::from_bits(g.gradient(x)), 1.0);
    assert_eq!(f64::from_bits(g.gradient(y)), 1.0);
}

#[test]
fn multiply_value_and_gradients() {
    let mut g = Graph::new();
    let x = g.value((2.0f64).to_bits());
    let y = g.value((3.0f64).to_bits());
    let p = g.mul(x, y);
    assert_eq!(f64::from_bits(g.data(p)), 6.0);
    g.compute_gradients(p);
    assert_eq!(f64::from_bits(g.gradient(x)), 3.0);
    assert_eq!(f64::from_bits(g.gradient(y)), 2.0);
}

#[test]
fn squared_value_and_base_gradient() {
    let mut g = Graph::new();
    let x = g.value((4.0f64).to_bits());
    let q = g.squared(x);
    assert_eq!(f64::from_bits(g.data(q)), 16.0);
    g.compute_gradients(q);
    assert_eq!(f64::from_bits(g.gradient(x)), 8.0);
}

#[test]
fn power_exponent_gradient_stays_zero() {
    let mut g = Graph::new();
    let base = g.value((4.0f64).to_bits());
    let exponent = g.value((2.0f64).to_bits());
    let p = g.pow(base, exponent);
    assert_eq!(f64::from_bits(g.data(p)), 16.0);
    g.compute_gradients(p);
    assert_eq!(f64::from_bits(g.gradient(base)), 8.0);
    assert_eq!(f64::from_bits(g.gradient(exponent)), 0.0);
}

#[test]
fn power_fractional_of_negative_base_is_nan() {
    let mut g = Graph::new();
    let base = g.value((-8.0f64).to_bits());
    let exponent = g.value((0.5f64).to_bits());
    let p = g.pow(base, exponent);
    assert!(f64::from_bits(g.data(p)).is_nan());
}

#[test]
fn relu_negative_input() {
    let mut g = Graph::new();
    let x = g.value((-3.0f64).to_bits());
    let r = g.relu(x);
    assert_eq!(f64::from_bits(g.data(r)), 0.0);
    g.compute_gradients(r);
    assert_eq!(f64::from_bits(g.gradient(x)), 0.0);
}

#[test]
fn relu_positive_input() {
    let mut g = Graph::new();
    let x = g.value((5.0f64).to_bits());
    let r = g.relu(x);
    assert_eq!(f64::from_bits(g.data(r)), 5.0);
    g.compute_gradients(r);
    assert_eq!(f64::from_bits(g.gradient(x)), 1.0);
}

#[test]
fn relu_subgradient_at_zero_is_zero() {
    let mut g = Graph::new();
    let x = g.value((0.0f64).to_bits());
    let r = g.relu(x);
    assert_eq!(f64::from_bits(g.data(r)), 0.0);
    g.compute_gradients(r);
    assert_eq!(f64::from_bits(g.gradient(x)), 0.0);
}

#[test]
fn subtract_value_and_gradients() {
    let mut g = Graph::new();
    let x = g.value((2.0f64).to_bits());
    let y = g.value((3.0f64).to_bits());
    let d = g.subtract(x, y);
    assert_eq!(f64::from_bits(g.data(d)), -1.0);
    g.compute_gradients(d);
    assert_eq!(f64::from_bits(g.gradient(x)), 1.0);
    assert_eq!(f64::from_bits(g.gradient(y)), -1.0);
}

#[test]
fn shared_node_accumulates_both_paths() {
    let mut g = Graph::new();
    let x = g.value((7.0f64).to_bits());
    let y = g.add(x, x);
    assert_eq!(f64::from_bits(g.data(y)), 14.0);
    g.compute_gradients(y);
    assert_eq!(f64::from_bits(g.gradient(x)), 2.0);
}

#[test]
fn learn_steps_against_the_gradient() {
    let mut g = Graph::new();
    let x = g.value((3.0f64).to_bits());
    let c = g.value((4.0f64).to_bits());
    let y = g.mul(x, c);
    g.compute_gradients(y);
    assert_eq!(f64::from_bits(g.gradient(x)), 4.0);
    g.learn(x, (0.5f64).to_bits());
    assert_eq!(f64::from_bits(g.data(x)), 1.0);
}

#[test]
fn learn_before_any_propagation_changes_nothing() {
    let mut g = Graph::new();
    let x = g.value((2.5f64).to_bits());
    g.learn(x, (0.1f64).to_bits());
    assert_eq!(f64::from_bits(g.data(x)), 2.5);
}

#[test]
fn gradient_defaults_to_zero() {
    let mut g = Graph::new();
    let x = g.value((2.5f64).to_bits());
    assert_eq!(f64::from_bits(g.gradient(x)), 0.0);
}

#[test]
fn derived_values_are_frozen_at_construction() {
    let mut g = Graph::new();
    let x = g.value((1.0f64).to_bits());
    let y = g.add(x, x);
    g.compute_gradients(y);
    g.learn(x, (0.25f64).to_bits());
    assert_eq!(f64::from_bits(g.data(x)), 0.5);
    assert_eq!(f64::from_bits(g.data(y)), 2.0);
}

#[test]
fn propagation_is_idempotent_without_mutation() {
    let mut g = Graph::new();
    let x = g.value((1.5f64).to_bits());
    let y = g.value((-2.0f64).to_bits());
    let xx = g.mul(x, x);
    let sum = g.add(xx, y);
    let root = g.relu(sum);
    g.compute_gradients(root);
    let gx1 = g.gradient(x);
    let gy1 = g.gradient(y);
    let gs1 = g.gradient(sum);
    g.compute_gradients(root);
    assert_eq!(g.gradient(x), gx1);
    assert_eq!(g.gradient(y), gy1);
    assert_eq!(g.gradient(sum), gs1);
}

#[test]
fn propagation_leaves_unreachable_nodes_alone() {
    let mut g = Graph::new();
    let z = g.value((5.0f64).to_bits());
    let rz = g.relu(z);
    g.compute_gradients(rz);
    assert_eq!(f64::from_bits(g.gradient(z)), 1.0);
    let x = g.value((2.0f64).to_bits());
    let y = g.value((3.0f64).to_bits());
    let s = g.add(x, y);
    g.compute_gradients(s);
    assert_eq!(f64::from_bits(g.gradient(z)), 1.0);
    assert_eq!(f64::from_bits(g.gradient(x)), 1.0);
}

#[test]
fn training_a_linear_model_reduces_the_loss() {
    let mut g = Graph::new();
    let w = g.value((0.5f64).to_bits());
    let b = g.value((0.1f64).to_bits());
    let x = g.value((3.0f64).to_bits());
    let target = g.value((10.0f64).to_bits());
    let rate = (1.0e-4f64).to_bits();
    let mut first_loss = 0.0f64;
    let mut last_loss = 0.0f64;
    let mut total = 0.0f64;
    for i in 0..1000 {
        let wx = g.mul(w, x);
        let predicted = g.add(wx, b);
        let diff = g.subtract(predicted, target);
        let loss = g.squared(diff);
        let loss_now = f64::from_bits(g.data(loss));
        if i == 0 {
            first_loss = loss_now;
        }
        last_loss = loss_now;
        total += loss_now;
        g.compute_gradients(loss);
        g.learn(w, rate);
        g.learn(b, rate);
    }
    assert!(last_loss < first_loss);
    assert!(total / 1000.0 < first_loss);
}
