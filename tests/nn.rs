use micrograd_rust::engine::{Graph, Value, ValueWrapper};
use micrograd_rust::nn::{parameter_count, Layer, MultiLayerPerceptron, Neuron};
use micrograd_rust::scalar::Scalar;

#[derive(Clone, Copy, Debug, PartialEq)]
struct F(f64);

impl Scalar for F {
    fn spec_zero() -> F {
        F::zero()
    }
    fn spec_one() -> F {
        F::one()
    }
    fn spec_negated(self) -> F {
        self.negated()
    }
    fn spec_plus(self, other: F) -> F {
        self.plus(other)
    }
    fn spec_minus(self, other: F) -> F {
        self.minus(other)
    }
    fn spec_times(self, other: F) -> F {
        self.times(other)
    }
    fn spec_over(self, other: F) -> F {
        self.over(other)
    }
    fn spec_powf(self, k: F) -> F {
        self.powf(k)
    }
    fn spec_exp(self) -> F {
        self.exp()
    }
    fn zero() -> F {
        F(0.0)
    }
    fn one() -> F {
        F(1.0)
    }
    fn negated(self) -> F {
        F(-self.0)
    }
    fn plus(self, other: F) -> F {
        F(self.0 + other.0)
    }
    fn minus(self, other: F) -> F {
        F(self.0 - other.0)
    }
    fn times(self, other: F) -> F {
        F(self.0 * other.0)
    }
    fn over(self, other: F) -> F {
        F(self.0 / other.0)
    }
    fn powf(self, k: F) -> F {
        F(self.0.powf(k.0))
    }
    fn exp(self) -> F {
        F(self.0.exp())
    }
}

fn leaves(g: &mut Graph<F>, xs: &[f64]) -> Vec<ValueWrapper> {
    xs.iter().map(|x| Value::new(g, F(*x))).collect()
}

fn pinned(n: usize) -> Vec<F> {
    (0..n).map(|i| F(((i * 7) % 11) as f64 / 11.0 - 0.5)).collect()
}

#[test]
fn parameter_count_values() {
    assert_eq!(parameter_count(3, &[4, 1]), Some(21));
    assert_eq!(parameter_count(3, &[]), Some(0));
    assert_eq!(parameter_count(2, &[0, 5]), Some(5));
    assert_eq!(parameter_count(usize::MAX, &[1]), None);
    assert_eq!(parameter_count(usize::MAX, &[0]), Some(0));
    assert_eq!(parameter_count(1, &[usize::MAX, 2]), None);
}

#[test]
fn neuron_parameters_are_weights_then_bias() {
    let mut g: Graph<F> = Graph::new();
    let n = Neuron::new(&mut g, 2, &[F(0.5), F(-0.25), F(0.125)]);
    let p = n.parameters();
    assert_eq!(p, vec![ValueWrapper(0), ValueWrapper(1), ValueWrapper(2)]);
    assert_eq!(g.data(p[2]), F(0.125));
    assert_eq!(n.b, ValueWrapper(2));
}

#[test]
fn neuron_call_value() {
    let mut g: Graph<F> = Graph::new();
    let n = Neuron::new(&mut g, 2, &[F(0.5), F(-0.25), F(0.125)]);
    let x = leaves(&mut g, &[2.0, 4.0]);
    let before = g.len();
    let o = n.call(&mut g, &x);
    assert_eq!(g.len(), before + 5);
    let expected = (0.125f64 + 0.5 * 2.0 + -0.25 * 4.0).tanh();
    assert!((g.data(o).0 - expected).abs() < 1e-12);
    o.backward(&mut g);
    let dt = 1.0 - g.data(o).0 * g.data(o).0;
    assert!((g.grad(n.w[0]).0 - 2.0 * dt).abs() < 1e-12);
    assert!((g.grad(n.b).0 - dt).abs() < 1e-12);
}

#[test]
fn layer_shapes_and_parameters() {
    let mut g: Graph<F> = Graph::new();
    let init = pinned(3 * 4);
    let layer = Layer::new(&mut g, 3, 3, &init);
    assert_eq!(layer.neurons.len(), 3);
    assert!(layer.neurons.iter().all(|n| n.w.len() == 3));
    let p = layer.parameters();
    assert_eq!(p, (0..12).map(ValueWrapper).collect::<Vec<_>>());
    for (i, v) in p.iter().enumerate() {
        assert_eq!(g.data(*v), init[i]);
    }
    let x = leaves(&mut g, &[1.0, -1.0, 0.5]);
    let out = layer.call(&mut g, &x);
    assert_eq!(out.len(), 3);
}

#[test]
fn network_shapes_and_parameters() {
    let mut g: Graph<F> = Graph::new();
    let count = parameter_count(3, &[4, 1]).unwrap();
    let init = pinned(count);
    let mlp = MultiLayerPerceptron::new(&mut g, 3, &[4, 1], &init);
    assert_eq!(mlp.layers.len(), 2);
    assert_eq!(mlp.layers[0].neurons.len(), 4);
    assert_eq!(mlp.layers[1].neurons.len(), 1);
    assert!(mlp.layers[1].neurons.iter().all(|n| n.w.len() == 4));
    let p = mlp.parameters();
    assert_eq!(p.len(), 21);
    assert_eq!(p, (0..21).map(ValueWrapper).collect::<Vec<_>>());
    let x = leaves(&mut g, &[2.0, 3.0, -1.0]);
    let out = mlp.call(&mut g, x);
    assert_eq!(out.len(), 1);
    let y = g.data(out[0]).0;
    assert!(y > -1.0 && y < 1.0);
}

#[test]
fn network_without_layers_returns_input() {
    let mut g: Graph<F> = Graph::new();
    let mlp = MultiLayerPerceptron::new(&mut g, 2, &[], &[]);
    let x = leaves(&mut g, &[1.0, 2.0]);
    let out = mlp.call(&mut g, x.clone());
    assert_eq!(out, x);
}

#[test]
fn pinned_network_is_deterministic_and_steps_exactly() {
    let mut g: Graph<F> = Graph::new();
    let init = pinned(parameter_count(3, &[4, 1]).unwrap());
    let mlp = MultiLayerPerceptron::new(&mut g, 3, &[4, 1], &init);
    let xs = [2.0, 3.0, -1.0];
    let x1 = leaves(&mut g, &xs);
    let y1 = mlp.call(&mut g, x1)[0];
    let x2 = leaves(&mut g, &xs);
    let y2 = mlp.call(&mut g, x2)[0];
    assert_eq!(g.data(y1).0.to_bits(), g.data(y2).0.to_bits());

    let target = Value::new(&mut g, F(1.0));
    let err = y1.sub(&mut g, target);
    let loss = err.pow(&mut g, F(2.0));
    for p in mlp.parameters() {
        g.zero_grad(p);
    }
    loss.backward(&mut g);
    let rate = 0.1;
    let params = mlp.parameters();
    let before: Vec<(f64, f64)> = params.iter().map(|p| (g.data(*p).0, g.grad(*p).0)).collect();
    for p in &params {
        let d = g.data(*p).0 + -rate * g.grad(*p).0;
        g.set_data(*p, F(d));
    }
    for (p, (d, gr)) in params.iter().zip(before.iter()) {
        assert_eq!(g.data(*p).0, d + -rate * gr);
        assert_eq!(g.grad(*p).0, *gr);
    }
    assert!(before.iter().any(|(_, gr)| *gr != 0.0));
}
