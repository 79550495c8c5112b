//! The single-neuron walkthrough: `n = x1 * w1 + x2 * w2 + b`, `o = tanh(n)`.
use vstd::prelude::*;
use crate::backward::{Backward, gradients_final_before_use, steps_over};
use crate::graph::{Graph, NodeView, Op};
use crate::topo::is_topo_order;

verus! {

/// The walkthrough graph, the name of each of its nodes, and the backward
/// pass from its output.
pub struct NeuronExample {
    pub graph: Graph,
    pub x1: usize,
    pub x2: usize,
    pub w1: usize,
    pub w2: usize,
    pub b: usize,
    pub x1w1: usize,
    pub x2w2: usize,
    pub x1w1x2w2: usize,
    pub n: usize,
    pub o: usize,
    pub pass: Backward,
}

pub open spec fn leaf_view() -> NodeView {
    NodeView { op: Op::Leaf, prev: seq![] }
}

/// Builds the walkthrough graph in a fresh arena, leaves first, and plans
/// the backward pass from `o`.
pub fn engine() -> (r: NeuronExample)
    ensures
        r.graph@ == seq![
            leaf_view(),
            leaf_view(),
            leaf_view(),
            leaf_view(),
            leaf_view(),
            NodeView { op: Op::Mul, prev: seq![0usize, 2usize] },
            NodeView { op: Op::Mul, prev: seq![1usize, 3usize] },
            NodeView { op: Op::Add, prev: seq![5usize, 6usize] },
            NodeView { op: Op::Add, prev: seq![7usize, 4usize] },
            NodeView { op: Op::Tanh, prev: seq![8usize] },
        ],
        r.x1 == 0 && r.x2 == 1 && r.w1 == 2 && r.w2 == 3 && r.b == 4,
        r.x1w1 == 5 && r.x2w2 == 6 && r.x1w1x2w2 == 7 && r.n == 8 && r.o == 9,
        is_topo_order(r.graph@, 9, r.pass.order@),
        r.pass.steps@ == steps_over(r.graph@, r.pass.order@.reverse()),
        gradients_final_before_use(r.pass.steps@),
{
    let mut graph = Graph::new();
    let x1 = graph.leaf();
    let x2 = graph.leaf();
    let w1 = graph.leaf();
    let w2 = graph.leaf();
    let b = graph.leaf();
    let x1w1 = graph.mul(x1, w1);
    let x2w2 = graph.mul(x2, w2);
    let x1w1x2w2 = graph.add(x1w1, x2w2);
    let n = graph.add(x1w1x2w2, b);
    let o = graph.tanh(n);
    let pass = graph.backward(o);
    assert(graph@ =~= seq![
        leaf_view(),
        leaf_view(),
        leaf_view(),
        leaf_view(),
        leaf_view(),
        NodeView { op: Op::Mul, prev: seq![0usize, 2usize] },
        NodeView { op: Op::Mul, prev: seq![1usize, 3usize] },
        NodeView { op: Op::Add, prev: seq![5usize, 6usize] },
        NodeView { op: Op::Add, prev: seq![7usize, 4usize] },
        NodeView { op: Op::Tanh, prev: seq![8usize] },
    ]);
    NeuronExample { graph, x1, x2, w1, w2, b, x1w1, x2w2, x1w1x2w2, n, o, pass }
}

} // verus!
