//! The computation graph: an append-only arena of nodes, each tagged with the
//! operation that produced it and the indices of its operands.
//!
//! A node's operands always sit at smaller indices than the node itself, so
//! the graph is acyclic by construction and every walk towards the leaves
//! ends.
use vstd::prelude::*;

verus! {

/// How a node was produced. `Leaf` marks a node made by no operation.
#[derive(Debug, Clone, Copy, PartialEq, Eq, Structural)]
pub enum Op {
    Leaf,
    Add,
    Sub,
    Mul,
    Div,
    Pow,
    Tanh,
}

/// Number of operands that an operation records.
pub open spec fn arity(op: Op) -> nat {
    match op {
        Op::Leaf => 0,
        Op::Tanh => 1,
        _ => 2,
    }
}

impl Op {
    pub fn arity(&self) -> (r: usize)
        ensures
            r == arity(*self),
    {
        match self {
            Op::Leaf => 0,
            Op::Tanh => 1,
            _ => 2,
        }
    }
}

/// Mathematical view of one node.
pub struct NodeView {
    pub op: Op,
    pub prev: Seq<usize>,
}

/// Node `i` records as many operands as its operation takes, all of them
/// created before it.
pub open spec fn node_wf(g: Seq<NodeView>, i: int) -> bool {
    &&& g[i].prev.len() == arity(g[i].op)
    &&& forall|j: int| 0 <= j < g[i].prev.len() ==> #[trigger] g[i].prev[j] < i
}

pub open spec fn graph_wf(g: Seq<NodeView>) -> bool {
    forall|i: int| 0 <= i < g.len() ==> #[trigger] node_wf(g, i)
}

/// `to` is `from` itself, or is reached from one of `from`'s operands. No
/// operation takes more than two operands, so the first two are the ones
/// followed.
pub open spec fn reaches(g: Seq<NodeView>, from: nat, to: nat) -> bool
    decreases from,
{
    from == to || (from < g.len() && ((g[from as int].prev.len() > 0 && g[from as int].prev[0]
        < from && reaches(g, g[from as int].prev[0] as nat, to)) || (g[from as int].prev.len() > 1
        && g[from as int].prev[1] < from && reaches(g, g[from as int].prev[1] as nat, to))))
}

/// The nodes that a node was made of, with its operation.
pub struct Node {
    op: Op,
    prev: Vec<usize>,
}

impl View for Node {
    type V = NodeView;

    closed spec fn view(&self) -> NodeView {
        NodeView { op: self.op, prev: self.prev@ }
    }
}

/// The arena that holds every node created so far. A node is named by its
/// index.
pub struct Graph {
    nodes: Vec<Node>,
}

impl View for Graph {
    type V = Seq<NodeView>;

    closed spec fn view(&self) -> Seq<NodeView> {
        self.nodes@.map_values(|n: Node| n@)
    }
}

impl Graph {
    #[verifier::type_invariant]
    spec fn inv(&self) -> bool {
        graph_wf(self@)
    }

    /// An empty graph.
    pub fn new() -> (r: Graph)
        ensures
            r@ == Seq::<NodeView>::empty(),
    {
        let r = Graph { nodes: Vec::new() };
        assert(r@ =~= Seq::<NodeView>::empty());
        r
    }

    /// Every graph built by these methods is well formed.
    pub fn check_wf(&self)
        ensures
            graph_wf(self@),
    {
        proof {
            use_type_invariant(self);
        }
    }

    /// Number of nodes created so far.
    pub fn len(&self) -> (r: usize)
        ensures
            r == self@.len(),
    {
        self.nodes.len()
    }

    /// The operation that produced node `i`.
    pub fn op(&self, i: usize) -> (r: Op)
        requires
            i < self@.len(),
        ensures
            r == self@[i as int].op,
    {
        self.nodes[i].op
    }

    /// The `j`-th operand of node `i`.
    pub fn prev(&self, i: usize, j: usize) -> (r: usize)
        requires
            i < self@.len(),
            j < self@[i as int].prev.len(),
        ensures
            r == self@[i as int].prev[j as int],
    {
        self.nodes[i].prev[j]
    }

    /// Number of operands of node `i`.
    pub fn prev_len(&self, i: usize) -> (r: usize)
        requires
            i < self@.len(),
        ensures
            r == self@[i as int].prev.len(),
    {
        self.nodes[i].prev.len()
    }

    fn push(&mut self, op: Op, prev: Vec<usize>) -> (r: usize)
        requires
            prev@.len() == arity(op),
            forall|j: int| 0 <= j < prev@.len() ==> #[trigger] prev@[j] < old(self)@.len(),
        ensures
            r == old(self)@.len(),
            final(self)@ == old(self)@.push(NodeView { op, prev: prev@ }),
    {
        proof {
            use_type_invariant(&*self);
        }
        let r = self.nodes.len();
        let node = Node { op, prev };
        assert(node@ == NodeView { op, prev: prev@ });
        let mut nodes: Vec<Node> = Vec::new();
        std::mem::swap(&mut nodes, &mut self.nodes);
        nodes.push(node);
        let ghost new_view = nodes@.map_values(|n: Node| n@);
        assert(new_view =~= old(self)@.push(NodeView { op, prev: prev@ }));
        assert(graph_wf(new_view)) by {
            assert forall|i: int| 0 <= i < new_view.len() implies #[trigger] node_wf(new_view, i) by {
                if i < r {
                    assert(node_wf(old(self)@, i));
                }
            }
        }
        self.nodes = nodes;
        r
    }

    /// A new leaf.
    pub fn leaf(&mut self) -> (r: usize)
        ensures
            r == old(self)@.len(),
            final(self)@ == old(self)@.push(NodeView { op: Op::Leaf, prev: seq![] }),
    {
        let v: Vec<usize> = Vec::new();
        assert(v@ =~= seq![]);
        self.push(Op::Leaf, v)
    }

    fn binary(&mut self, op: Op, a: usize, b: usize) -> (r: usize)
        requires
            arity(op) == 2,
            a < old(self)@.len(),
            b < old(self)@.len(),
        ensures
            r == old(self)@.len(),
            final(self)@ == old(self)@.push(NodeView { op, prev: seq![a, b] }),
    {
        let v: Vec<usize> = vec![a, b];
        assert(v@ =~= seq![a, b]);
        self.push(op, v)
    }

    /// A new node for `a + b`.
    pub fn add(&mut self, a: usize, b: usize) -> (r: usize)
        requires
            a < old(self)@.len(),
            b < old(self)@.len(),
        ensures
            r == old(self)@.len(),
            final(self)@ == old(self)@.push(NodeView { op: Op::Add, prev: seq![a, b] }),
    {
        self.binary(Op::Add, a, b)
    }

    /// A new node for `a - b`.
    pub fn sub(&mut self, a: usize, b: usize) -> (r: usize)
        requires
            a < old(self)@.len(),
            b < old(self)@.len(),
        ensures
            r == old(self)@.len(),
            final(self)@ == old(self)@.push(NodeView { op: Op::Sub, prev: seq![a, b] }),
    {
        self.binary(Op::Sub, a, b)
    }

    /// A new node for `a * b`.
    pub fn mul(&mut self, a: usize, b: usize) -> (r: usize)
        requires
            a < old(self)@.len(),
            b < old(self)@.len(),
        ensures
            r == old(self)@.len(),
            final(self)@ == old(self)@.push(NodeView { op: Op::Mul, prev: seq![a, b] }),
    {
        self.binary(Op::Mul, a, b)
    }

    /// A new node for `a / b`.
    pub fn div(&mut self, a: usize, b: usize) -> (r: usize)
        requires
            a < old(self)@.len(),
            b < old(self)@.len(),
        ensures
            r == old(self)@.len(),
            final(self)@ == old(self)@.push(NodeView { op: Op::Div, prev: seq![a, b] }),
    {
        self.binary(Op::Div, a, b)
    }

    /// A new node for `a` raised to a constant exponent. The exponent gets a
    /// leaf of its own, created just before the power node; the result is the
    /// power node, so the exponent leaf is `r - 1`.
    pub fn pow(&mut self, a: usize) -> (r: usize)
        requires
            a < old(self)@.len(),
        ensures
            r == old(self)@.len() + 1,
            final(self)@ == old(self)@.push(NodeView { op: Op::Leaf, prev: seq![] }).push(
                NodeView { op: Op::Pow, prev: seq![a, (r - 1) as usize] },
            ),
    {
        let e = self.leaf();
        self.binary(Op::Pow, a, e)
    }

    /// A new node for the hyperbolic tangent of `a`.
    pub fn tanh(&mut self, a: usize) -> (r: usize)
        requires
            a < old(self)@.len(),
        ensures
            r == old(self)@.len(),
            final(self)@ == old(self)@.push(NodeView { op: Op::Tanh, prev: seq![a] }),
    {
        let v: Vec<usize> = vec![a];
        assert(v@ =~= seq![a]);
        self.push(Op::Tanh, v)
    }
}

} // verus!
