use micrograd_rust::backward::{Local, Step};
use micrograd_rust::demo::engine;
use micrograd_rust::graph::{Graph, Op};

/// Node values beside a graph, computed as each node is made, and the
/// gradients that backward passes accumulate.
struct Values {
    graph: Graph,
    data: Vec<f64>,
    grad: Vec<f64>,
}

impl Values {
    fn new() -> Self {
        Values { graph: Graph::new(), data: vec![], grad: vec![] }
    }

    fn record(&mut self, n: usize, v: f64) -> usize {
        assert_eq!(n, self.data.len());
        self.data.push(v);
        self.grad.push(0.0);
        n
    }

    fn leaf(&mut self, v: f64) -> usize {
        let n = self.graph.leaf();
        self.record(n, v)
    }

    fn add(&mut self, a: usize, b: usize) -> usize {
        let n = self.graph.add(a, b);
        self.record(n, self.data[a] + self.data[b])
    }

    fn sub(&mut self, a: usize, b: usize) -> usize {
        let n = self.graph.sub(a, b);
        self.record(n, self.data[a] - self.data[b])
    }

    fn mul(&mut self, a: usize, b: usize) -> usize {
        let n = self.graph.mul(a, b);
        self.record(n, self.data[a] * self.data[b])
    }

    fn div(&mut self, a: usize, b: usize) -> usize {
        let n = self.graph.div(a, b);
        self.record(n, self.data[a] / self.data[b])
    }

    fn pow(&mut self, a: usize, e: f64) -> usize {
        let n = self.graph.pow(a);
        self.record(n - 1, e);
        self.record(n, self.data[a].powf(e))
    }

    fn tanh(&mut self, a: usize) -> usize {
        let n = self.graph.tanh(a);
        self.record(n, self.data[a].tanh())
    }

    fn local(&self, l: Local) -> f64 {
        let d = &self.data;
        match l {
            Local::One => 1.0,
            Local::MinusOne => -1.0,
            Local::ValueOf(b) => d[b],
            Local::Reciprocal(b) => 1.0 / d[b],
            Local::QuotientSlope(a, b) => -(d[a] / (d[b] * d[b])),
            Local::PowerSlope(a, e) => d[e] * d[a].powf(d[e] - 1.0),
            Local::TanhSlope(a) => 1.0 - d[a].tanh() * d[a].tanh(),
        }
    }

    fn backward(&mut self, root: usize) {
        let pass = self.graph.backward(root);
        self.grad[root] = 1.0;
        for s in pass.steps {
            let delta = self.grad[s.from] * self.local(s.local);
            self.grad[s.to] += delta;
        }
    }
}

fn close(a: f64, b: f64, eps: f64) -> bool {
    (a - b).abs() < eps
}

fn steps_of(g: &Graph, root: usize) -> Vec<Step> {
    g.backward(root).steps
}

#[test]
fn add_sends_one_to_each_operand() {
    let mut g = Graph::new();
    let a = g.leaf();
    let b = g.leaf();
    let c = g.add(a, b);
    assert_eq!(
        steps_of(&g, c),
        vec![Step { from: c, to: a, local: Local::One }, Step { from: c, to: b, local: Local::One }]
    );
}

#[test]
fn sub_negates_for_its_second_operand() {
    let mut g = Graph::new();
    let a = g.leaf();
    let b = g.leaf();
    let c = g.sub(a, b);
    assert_eq!(
        steps_of(&g, c),
        vec![Step { from: c, to: a, local: Local::One }, Step { from: c, to: b, local: Local::MinusOne }]
    );
}

#[test]
fn mul_scales_by_the_other_operand() {
    let mut g = Graph::new();
    let a = g.leaf();
    let b = g.leaf();
    let c = g.mul(a, b);
    assert_eq!(
        steps_of(&g, c),
        vec![
            Step { from: c, to: a, local: Local::ValueOf(b) },
            Step { from: c, to: b, local: Local::ValueOf(a) },
        ]
    );
}

#[test]
fn div_uses_reciprocal_and_quotient_slope() {
    let mut g = Graph::new();
    let a = g.leaf();
    let b = g.leaf();
    let c = g.div(a, b);
    assert_eq!(
        steps_of(&g, c),
        vec![
            Step { from: c, to: a, local: Local::Reciprocal(b) },
            Step { from: c, to: b, local: Local::QuotientSlope(a, b) },
        ]
    );
}

#[test]
fn pow_sends_nothing_to_its_exponent() {
    let mut g = Graph::new();
    let a = g.leaf();
    let p = g.pow(a);
    assert_eq!(steps_of(&g, p), vec![Step { from: p, to: a, local: Local::PowerSlope(a, p - 1) }]);
}

#[test]
fn tanh_uses_its_slope() {
    let mut g = Graph::new();
    let a = g.leaf();
    let t = g.tanh(a);
    assert_eq!(steps_of(&g, t), vec![Step { from: t, to: a, local: Local::TanhSlope(a) }]);
}

#[test]
fn backward_from_a_leaf_updates_nothing() {
    let mut g = Graph::new();
    let a = g.leaf();
    assert_eq!(steps_of(&g, a), vec![]);
}

#[test]
fn fan_out_steps_come_from_the_sum_then_the_product() {
    let mut g = Graph::new();
    let a = g.leaf();
    let m = g.mul(a, a);
    let s = g.add(m, a);
    assert_eq!(
        steps_of(&g, s),
        vec![
            Step { from: s, to: m, local: Local::One },
            Step { from: s, to: a, local: Local::One },
            Step { from: m, to: a, local: Local::ValueOf(a) },
            Step { from: m, to: a, local: Local::ValueOf(a) },
        ]
    );
}

#[test]
fn every_update_into_a_node_comes_before_the_node_passes_its_gradient_on() {
    let ex = engine();
    let steps = &ex.pass.steps;
    assert_eq!(steps.len(), 9);
    assert_eq!(steps[0], Step { from: ex.o, to: ex.n, local: Local::TanhSlope(ex.n) });
    for (k, s) in steps.iter().enumerate() {
        for (i, t) in steps.iter().enumerate() {
            if t.to == s.from {
                assert!(i < k);
            }
        }
    }
}

#[test]
fn sum_of_two_leaves_gives_each_gradient_one() {
    for (x, y) in [(2.0, 3.0), (-1.5, 0.0), (1e9, -7.25)] {
        let mut v = Values::new();
        let a = v.leaf(x);
        let b = v.leaf(y);
        let c = v.add(a, b);
        v.backward(c);
        assert_eq!(v.grad[a], 1.0);
        assert_eq!(v.grad[b], 1.0);
    }
}

#[test]
fn product_of_two_leaves_swaps_the_values_into_the_gradients() {
    for (x, y) in [(2.0, 3.0), (-1.5, 0.0), (0.1, -7.25)] {
        let mut v = Values::new();
        let a = v.leaf(x);
        let b = v.leaf(y);
        let c = v.mul(a, b);
        v.backward(c);
        assert_eq!(v.grad[a], v.data[b]);
        assert_eq!(v.grad[b], v.data[a]);
    }
}

#[test]
fn fan_out_accumulates_every_path() {
    for x in [3.0, -0.5, 0.0] {
        let mut v = Values::new();
        let a = v.leaf(x);
        let m = v.mul(a, a);
        let s = v.add(m, a);
        v.backward(s);
        assert!(close(v.grad[a], 2.0 * x + 1.0, 1e-12));
    }
}

fn expression(v: &mut Values, x: f64) -> (usize, usize) {
    let xn = v.leaf(x);
    let half = v.leaf(0.5);
    let fifth = v.leaf(0.2);
    let three = v.leaf(3.0);
    let sq = v.pow(xn, 2.0);
    let u = v.mul(sq, half);
    let t = v.mul(xn, fifth);
    let w = v.sub(u, t);
    let d = v.add(xn, three);
    let q = v.div(w, d);
    let o = v.tanh(q);
    (xn, o)
}

#[test]
fn gradient_matches_finite_difference() {
    let eps = 1e-3;
    for x in [0.7, -0.4, 1.3] {
        let mut v = Values::new();
        let (xn, o) = expression(&mut v, x);
        v.backward(o);
        let mut shifted = Values::new();
        let (_, o2) = expression(&mut shifted, x + eps);
        let slope = (shifted.data[o2] - v.data[o]) / eps;
        assert!(close(v.grad[xn], slope, 1e-3), "{} against {}", v.grad[xn], slope);
    }
}

#[test]
fn walkthrough_neuron_values_and_gradients() {
    let ex = engine();
    let mut v = Values::new();
    let x1 = v.leaf(2.0);
    let x2 = v.leaf(0.0);
    let w1 = v.leaf(-3.0);
    let w2 = v.leaf(1.0);
    let b = v.leaf(6.8813735870195432);
    let x1w1 = v.mul(x1, w1);
    let x2w2 = v.mul(x2, w2);
    let x1w1x2w2 = v.add(x1w1, x2w2);
    let n = v.add(x1w1x2w2, b);
    let o = v.tanh(n);
    assert_eq!((x1, x2, w1, w2, b), (ex.x1, ex.x2, ex.w1, ex.w2, ex.b));
    assert_eq!((x1w1, x2w2, x1w1x2w2, n, o), (ex.x1w1, ex.x2w2, ex.x1w1x2w2, ex.n, ex.o));
    v.backward(o);
    let e = 1e-4;
    assert!(close(v.data[n], 0.8814, e));
    assert!(close(v.data[o], 0.7071, e));
    assert!(close(v.grad[x1], -1.5, e));
    assert!(close(v.grad[x2], 0.5, e));
    assert!(close(v.grad[w1], 1.0, e));
    assert!(close(v.grad[w2], 0.0, e));
    assert!(close(v.grad[x1w1], 0.5, e));
    assert!(close(v.grad[x2w2], 0.5, e));
    assert!(close(v.grad[x1w1x2w2], 0.5, e));
    assert!(close(v.grad[n], 0.5, e));
}

#[test]
fn second_backward_without_zeroing_doubles_leaf_gradients() {
    let mut v = Values::new();
    let a = v.leaf(1.5);
    let b = v.leaf(-4.0);
    let c = v.mul(a, b);
    v.backward(c);
    let first = (v.grad[a], v.grad[b]);
    v.backward(c);
    assert_eq!(v.grad[a], 2.0 * first.0);
    assert_eq!(v.grad[b], 2.0 * first.1);
}

#[test]
fn second_backward_through_an_inner_node_adds_more_than_once_more() {
    let mut v = Values::new();
    let a = v.leaf(1.5);
    let b = v.leaf(-4.0);
    let c = v.mul(a, b);
    let d = v.add(c, b);
    v.backward(d);
    let first = v.grad[a];
    v.backward(d);
    assert_eq!(v.grad[a], 3.0 * first);
}

#[test]
fn test_add() {
    let mut v = Values::new();
    let a = v.leaf(2.0);
    let b = v.leaf(3.0);
    let c = v.add(a, b);
    assert_eq!(v.data[c], 5.0);
    assert_eq!(v.graph.op(c), Op::Add);
}

#[test]
fn test_sub() {
    let mut v = Values::new();
    let a = v.leaf(5.0);
    let b = v.leaf(3.0);
    let c = v.sub(a, b);
    assert_eq!(v.data[c], 2.0);
    assert_eq!(v.graph.op(c), Op::Sub);
}

#[test]
fn test_mul() {
    let mut v = Values::new();
    let a = v.leaf(2.0);
    let b = v.leaf(3.0);
    let c = v.mul(a, b);
    assert_eq!(v.data[c], 6.0);
    assert_eq!(v.graph.op(c), Op::Mul);
}

#[test]
fn test_div() {
    let mut v = Values::new();
    let a = v.leaf(6.0);
    let b = v.leaf(3.0);
    let c = v.div(a, b);
    assert_eq!(v.data[c], 2.0);
    assert_eq!(v.graph.op(c), Op::Div);
}

#[test]
fn test_pow() {
    let mut v = Values::new();
    let a = v.leaf(6.0);
    let b = v.pow(a, 2.0);
    assert_eq!(v.data[b], 36.0);
    assert_eq!(v.graph.op(b), Op::Pow);
}
