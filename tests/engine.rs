use micrograd_rust::engine::{Graph, Op, Value, ValueWrapper};
use micrograd_rust::scalar::Scalar;

#[derive(Clone, Copy, Debug, PartialEq)]
struct F(f64);

impl Scalar for F {
    fn spec_zero() -> F {
        F::zero()
    }
    fn spec_one() -> F {
        F::one()
    }
    fn spec_negated(self) -> F {
        self.negated()
    }
    fn spec_plus(self, other: F) -> F {
        self.plus(other)
    }
    fn spec_minus(self, other: F) -> F {
        self.minus(other)
    }
    fn spec_times(self, other: F) -> F {
        self.times(other)
    }
    fn spec_over(self, other: F) -> F {
        self.over(other)
    }
    fn spec_powf(self, k: F) -> F {
        self.powf(k)
    }
    fn spec_exp(self) -> F {
        self.exp()
    }
    fn zero() -> F {
        F(0.0)
    }
    fn one() -> F {
        F(1.0)
    }
    fn negated(self) -> F {
        F(-self.0)
    }
    fn plus(self, other: F) -> F {
        F(self.0 + other.0)
    }
    fn minus(self, other: F) -> F {
        F(self.0 - other.0)
    }
    fn times(self, other: F) -> F {
        F(self.0 * other.0)
    }
    fn over(self, other: F) -> F {
        F(self.0 / other.0)
    }
    fn powf(self, k: F) -> F {
        F(self.0.powf(k.0))
    }
    fn exp(self) -> F {
        F(self.0.exp())
    }
}

fn leaf(g: &mut Graph<F>, x: f64) -> ValueWrapper {
    Value::new(g, F(x))
}

fn data(g: &Graph<F>, v: ValueWrapper) -> f64 {
    g.data(v).0
}

fn grad(g: &Graph<F>, v: ValueWrapper) -> f64 {
    g.grad(v).0
}

fn close(a: f64, b: f64) -> bool {
    (a - b).abs() < 1e-9
}

#[test]
fn fixed_values_scenario() {
    let mut g: Graph<F> = Graph::new();
    let a = leaf(&mut g, 2.0);
    let b = leaf(&mut g, -3.0);
    let c = leaf(&mut g, 10.0);
    let f = leaf(&mut g, -2.0);
    let e = a.mul(&mut g, b);
    let d = e.add(&mut g, c);
    let l = d.mul(&mut g, f);
    assert_eq!(data(&g, l), -8.0);
    l.backward(&mut g);
    // dl/da = b * f = (-3) * (-2)
    assert_eq!(grad(&g, a), data(&g, b) * data(&g, f));
    assert_eq!(grad(&g, a), 6.0);
    assert_eq!(grad(&g, b), -4.0);
    assert_eq!(grad(&g, c), -2.0);
    assert_eq!(grad(&g, d), -2.0);
    assert_eq!(grad(&g, e), -2.0);
    assert_eq!(grad(&g, f), 4.0);
    assert_eq!(grad(&g, l), 1.0);
}

#[test]
fn tanh_at_zero_passes_gradient_through() {
    let mut g: Graph<F> = Graph::new();
    let x = leaf(&mut g, 0.0);
    let t = x.tanh(&mut g);
    assert_eq!(data(&g, t), 0.0);
    t.backward(&mut g);
    assert_eq!(grad(&g, x), 1.0);
}

#[test]
fn tanh_gradient_scales_upstream() {
    let mut g: Graph<F> = Graph::new();
    let x = leaf(&mut g, 0.0);
    let t = x.tanh(&mut g);
    let k = leaf(&mut g, 3.0);
    let y = t.mul(&mut g, k);
    y.backward(&mut g);
    assert_eq!(grad(&g, t), 3.0);
    assert_eq!(grad(&g, x), 3.0);
}

#[test]
fn power_two_rule() {
    let mut g: Graph<F> = Graph::new();
    let x = leaf(&mut g, 3.0);
    let y = x.pow(&mut g, F(2.0));
    assert_eq!(data(&g, y), 9.0);
    y.backward(&mut g);
    assert_eq!(grad(&g, x), 6.0);
}

#[test]
fn accumulates_over_two_consumers() {
    // y = x * w + x * v: dy/dx = w + v
    let mut g: Graph<F> = Graph::new();
    let x = leaf(&mut g, 1.5);
    let w = leaf(&mut g, 4.0);
    let v = leaf(&mut g, -0.5);
    let p = x.mul(&mut g, w);
    let q = x.mul(&mut g, v);
    let y = p.add(&mut g, q);
    y.backward(&mut g);
    assert_eq!(grad(&g, x), 3.5);
    assert_eq!(grad(&g, w), 1.5);
    assert_eq!(grad(&g, v), 1.5);
}

#[test]
fn same_node_as_both_operands() {
    let mut g: Graph<F> = Graph::new();
    let x = leaf(&mut g, 3.0);
    let s = x.add(&mut g, x);
    let m = x.mul(&mut g, x);
    let y = s.add(&mut g, m);
    assert_eq!(data(&g, y), 15.0);
    y.backward(&mut g);
    // d(2x + x^2)/dx = 2 + 2x
    assert_eq!(grad(&g, x), 8.0);
}

#[test]
fn reset_then_backward_reproduces_gradients() {
    let mut g: Graph<F> = Graph::new();
    let a = leaf(&mut g, 0.3);
    let b = leaf(&mut g, -1.7);
    let c = a.mul(&mut g, b);
    let d = c.tanh(&mut g);
    let e = d.add(&mut g, a);
    let y = e.exp(&mut g);
    let order_before = g.topological_order(y);
    y.backward(&mut g);
    let first: Vec<f64> = (0..g.len()).map(|i| grad(&g, ValueWrapper(i))).collect();
    g.zero_all_grads();
    for i in 0..g.len() {
        assert_eq!(grad(&g, ValueWrapper(i)), 0.0);
    }
    assert_eq!(g.topological_order(y), order_before);
    y.backward(&mut g);
    let second: Vec<f64> = (0..g.len()).map(|i| grad(&g, ValueWrapper(i))).collect();
    assert_eq!(first, second);
}

#[test]
fn backward_without_reset_accumulates() {
    let mut g: Graph<F> = Graph::new();
    let a = leaf(&mut g, 2.0);
    let b = leaf(&mut g, 5.0);
    let y = a.mul(&mut g, b);
    y.backward(&mut g);
    assert_eq!(grad(&g, a), 5.0);
    y.backward(&mut g);
    assert_eq!(grad(&g, a), 10.0);
    g.zero_grad(a);
    assert_eq!(grad(&g, a), 0.0);
    assert_eq!(grad(&g, b), 4.0);
}

#[test]
fn fan_out_visits_each_node_once() {
    let mut g: Graph<F> = Graph::new();
    let x = leaf(&mut g, 1.0);
    let mut acc = x;
    for _ in 0..50 {
        acc = acc.add(&mut g, x);
    }
    let order = g.topological_order(acc);
    assert_eq!(order.len(), 51);
    assert_eq!(order[0], x);
    assert_eq!(*order.last().unwrap(), acc);
    for w in order.windows(2) {
        assert!(w[0].0 < w[1].0);
    }
    acc.backward(&mut g);
    assert_eq!(data(&g, acc), 51.0);
    assert_eq!(grad(&g, x), 51.0);
}

#[test]
fn topological_order_skips_unreachable_nodes() {
    let mut g: Graph<F> = Graph::new();
    let a = leaf(&mut g, 1.0);
    let unused = leaf(&mut g, 7.0);
    let b = leaf(&mut g, 2.0);
    let y = a.add(&mut g, b);
    let order = g.topological_order(y);
    assert_eq!(order, vec![a, b, y]);
    y.backward(&mut g);
    assert_eq!(grad(&g, unused), 0.0);
}

#[test]
fn derived_operations() {
    let mut g: Graph<F> = Graph::new();
    let a = leaf(&mut g, 6.0);
    let b = leaf(&mut g, 3.0);
    let n = a.neg(&mut g);
    assert_eq!(data(&g, n), -6.0);
    let s = a.sub(&mut g, b);
    assert_eq!(data(&g, s), 3.0);
    let q = a.div(&mut g, b);
    assert!(close(data(&g, q), 2.0));
    q.backward(&mut g);
    // d(a/b)/da = 1/b, d(a/b)/db = -a/b^2
    assert!(close(grad(&g, a), 1.0 / 3.0));
    assert!(close(grad(&g, b), -6.0 / 9.0));
}

#[test]
fn subtract_gradients() {
    let mut g: Graph<F> = Graph::new();
    let a = leaf(&mut g, 6.0);
    let b = leaf(&mut g, 3.0);
    let s = a.sub(&mut g, b);
    s.backward(&mut g);
    assert_eq!(grad(&g, a), 1.0);
    assert_eq!(grad(&g, b), -1.0);
}

#[test]
fn exponential_rule() {
    let mut g: Graph<F> = Graph::new();
    let x = leaf(&mut g, 1.0);
    let y = x.exp(&mut g);
    assert!(close(data(&g, y), std::f64::consts::E));
    y.backward(&mut g);
    assert!(close(grad(&g, x), std::f64::consts::E));
}

#[test]
fn division_by_zero_is_not_a_fault() {
    let mut g: Graph<F> = Graph::new();
    let a = leaf(&mut g, 1.0);
    let z = leaf(&mut g, 0.0);
    let q = a.div(&mut g, z);
    assert!(data(&g, q).is_infinite());
    q.backward(&mut g);
    assert!(grad(&g, a).is_infinite());
}

#[test]
fn operations_record_operands_and_leave_inputs_alone() {
    let mut g: Graph<F> = Graph::new();
    let a = leaf(&mut g, 2.0);
    let b = leaf(&mut g, 4.0);
    let c = a.mul(&mut g, b);
    assert_eq!(g.len(), 3);
    assert_eq!(c, ValueWrapper(2));
    assert_eq!(data(&g, a), 2.0);
    assert_eq!(grad(&g, a), 0.0);
    assert_eq!(grad(&g, c), 0.0);
    assert!(matches!(g.node(c).op, Op::Mul(0, 1)));
}

#[test]
fn neuron_forward_example() {
    let mut g: Graph<F> = Graph::new();
    let x1 = leaf(&mut g, 2.0);
    let x2 = leaf(&mut g, 0.0);
    let w1 = leaf(&mut g, -3.0);
    let w2 = leaf(&mut g, 1.0);
    let b = leaf(&mut g, 6.8813735870195432);
    let x1w1 = x1.mul(&mut g, w1);
    let x2w2 = x2.mul(&mut g, w2);
    let sum = x1w1.add(&mut g, x2w2);
    let n = sum.add(&mut g, b);
    let o = n.tanh(&mut g);
    o.backward(&mut g);
    assert!((data(&g, o) - 0.7071067811865476).abs() < 1e-12);
    assert!((grad(&g, x1) + 1.5).abs() < 1e-12);
    assert!((grad(&g, w1) - 1.0).abs() < 1e-12);
    assert!((grad(&g, x2) - 0.5).abs() < 1e-12);
    assert_eq!(grad(&g, w2), 0.0);
    assert!((grad(&g, b) - 0.5).abs() < 1e-12);
}

#[test]
fn set_data_keeps_gradient() {
    let mut g: Graph<F> = Graph::new();
    let a = leaf(&mut g, 2.0);
    let b = leaf(&mut g, 5.0);
    let y = a.mul(&mut g, b);
    y.backward(&mut g);
    g.set_data(a, F(-1.0));
    assert_eq!(data(&g, a), -1.0);
    assert_eq!(grad(&g, a), 5.0);
}

#[test]
fn multiply_and_power_paths_add_up() {
    let mut g: Graph<F> = Graph::new();
    let a = leaf(&mut g, 3.0);
    let four = leaf(&mut g, 4.0);
    let p = a.mul(&mut g, four);
    let q = a.pow(&mut g, F(2.0));
    let l = p.add(&mut g, q);
    l.backward(&mut g);
    assert_eq!(grad(&g, a), 10.0);
    assert_eq!(grad(&g, p), 1.0);
    assert_eq!(grad(&g, q), 1.0);
}

#[test]
fn doubling_chain_runs_each_rule_once() {
    let mut g: Graph<F> = Graph::new();
    let a = leaf(&mut g, 1.0);
    let mut s = vec![a];
    for k in 1..=20 {
        let prev = s[k - 1];
        s.push(prev.add(&mut g, prev));
    }
    s[20].backward(&mut g);
    assert_eq!(grad(&g, a), 1048576.0);
    for k in 0..=20 {
        assert_eq!(grad(&g, s[k]), (1u64 << (20 - k)) as f64);
    }
}
