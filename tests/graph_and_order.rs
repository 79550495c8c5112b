use micrograd_rust::demo::engine;
use micrograd_rust::graph::{Graph, Op};

fn assert_operands_first(g: &Graph, order: &[usize]) {
    for (k, &n) in order.iter().enumerate() {
        for j in 0..g.prev_len(n) {
            let p = g.prev(n, j);
            assert!(order[..k].contains(&p), "operand {} of {} is not listed before it", p, n);
        }
    }
}

#[test]
fn new_graph_is_empty() {
    let g = Graph::new();
    assert_eq!(g.len(), 0);
}

#[test]
fn leaves_are_numbered_in_creation_order() {
    let mut g = Graph::new();
    assert_eq!(g.leaf(), 0);
    assert_eq!(g.leaf(), 1);
    assert_eq!(g.len(), 2);
    assert_eq!(g.op(0), Op::Leaf);
    assert_eq!(g.prev_len(0), 0);
}

#[test]
fn binary_operations_record_operands_in_order() {
    let mut g = Graph::new();
    let a = g.leaf();
    let b = g.leaf();
    let cases = [
        (g.add(a, b), Op::Add),
        (g.sub(b, a), Op::Sub),
        (g.mul(a, b), Op::Mul),
        (g.div(b, a), Op::Div),
    ];
    assert_eq!(cases[0].0, 2);
    assert_eq!(cases[3].0, 5);
    for (i, (n, op)) in cases.iter().enumerate() {
        assert_eq!(g.op(*n), *op);
        assert_eq!(g.prev_len(*n), 2);
        if i % 2 == 0 {
            assert_eq!((g.prev(*n, 0), g.prev(*n, 1)), (a, b));
        } else {
            assert_eq!((g.prev(*n, 0), g.prev(*n, 1)), (b, a));
        }
    }
}

#[test]
fn pow_gets_an_exponent_leaf() {
    let mut g = Graph::new();
    let a = g.leaf();
    let p = g.pow(a);
    assert_eq!(p, 2);
    assert_eq!(g.op(1), Op::Leaf);
    assert_eq!(g.op(p), Op::Pow);
    assert_eq!((g.prev(p, 0), g.prev(p, 1)), (a, 1));
}

#[test]
fn tanh_has_one_operand() {
    let mut g = Graph::new();
    let a = g.leaf();
    let t = g.tanh(a);
    assert_eq!(g.op(t), Op::Tanh);
    assert_eq!(g.prev_len(t), 1);
    assert_eq!(g.prev(t, 0), a);
}

#[test]
fn arity_of_each_operation() {
    assert_eq!(Op::Leaf.arity(), 0);
    assert_eq!(Op::Tanh.arity(), 1);
    for op in [Op::Add, Op::Sub, Op::Mul, Op::Div, Op::Pow] {
        assert_eq!(op.arity(), 2);
    }
}

#[test]
fn order_of_a_leaf_is_the_leaf() {
    let mut g = Graph::new();
    let a = g.leaf();
    assert_eq!(g.build_order(a), vec![a]);
}

#[test]
fn order_skips_nodes_the_root_does_not_depend_on() {
    let mut g = Graph::new();
    let a = g.leaf();
    let b = g.leaf();
    let _unused = g.mul(a, b);
    let c = g.tanh(b);
    assert_eq!(g.build_order(c), vec![b, c]);
}

#[test]
fn order_lists_a_shared_operand_once() {
    let mut g = Graph::new();
    let a = g.leaf();
    let m = g.mul(a, a);
    let s = g.add(m, a);
    let order = g.build_order(s);
    assert_eq!(order, vec![a, m, s]);
    assert_operands_first(&g, &order);
}

#[test]
fn order_of_the_walkthrough_is_depth_first_post_order() {
    let ex = engine();
    let order = ex.graph.build_order(ex.o);
    assert_eq!(order, vec![0, 2, 5, 1, 3, 6, 7, 4, 8, 9]);
    assert_operands_first(&ex.graph, &order);
    assert_eq!(ex.pass.order, order);
}

#[test]
fn order_of_a_diamond_lists_every_node_once_after_its_operands() {
    let mut g = Graph::new();
    let x = g.leaf();
    let y = g.leaf();
    let left = g.mul(x, y);
    let right = g.div(x, left);
    let top = g.sub(left, right);
    let e = g.pow(top);
    let order = g.build_order(e);
    let mut sorted = order.clone();
    sorted.sort();
    assert_eq!(sorted, vec![x, y, left, right, top, e - 1, e]);
    assert_eq!(*order.last().unwrap(), e);
    assert_operands_first(&g, &order);
}

#[test]
fn walkthrough_names_its_nodes() {
    let ex = engine();
    assert_eq!(ex.graph.len(), 10);
    assert_eq!((ex.x1, ex.x2, ex.w1, ex.w2, ex.b), (0, 1, 2, 3, 4));
    assert_eq!((ex.x1w1, ex.x2w2, ex.x1w1x2w2, ex.n, ex.o), (5, 6, 7, 8, 9));
    assert_eq!(ex.graph.op(ex.o), Op::Tanh);
    assert_eq!(ex.graph.prev(ex.n, 1), ex.b);
}
