//! The backward pass: which gradient updates run, in which order, and by what
//! local derivative each one scales the gradient that it passes on.
//!
//! A backward pass from `root` seeds `root`'s gradient with one, then applies
//! the steps in order. Step `s` adds `gradient(s.from) * local(s.local)` to
//! `gradient(s.to)`, where `local` is read off the current node values:
//!
//! | `Local`                 | local derivative      |
//! |-------------------------|-----------------------|
//! | `One`                   | 1                     |
//! | `MinusOne`              | -1                    |
//! | `ValueOf(b)`            | b                     |
//! | `Reciprocal(b)`         | 1 / b                 |
//! | `QuotientSlope(a, b)`   | -(a / b^2)            |
//! | `PowerSlope(a, e)`      | e * a^(e - 1)         |
//! | `TanhSlope(a)`          | 1 - tanh(a)^2         |
use vstd::prelude::*;
use crate::graph::{Graph, NodeView, Op, graph_wf, node_wf};
use crate::topo::is_topo_order;

verus! {

/// The factor by which one update scales the gradient that it passes on,
/// named by the node values it is computed from.
#[derive(Debug, Clone, Copy, PartialEq, Eq, Structural)]
pub enum Local {
    One,
    MinusOne,
    ValueOf(usize),
    Reciprocal(usize),
    QuotientSlope(usize, usize),
    PowerSlope(usize, usize),
    TanhSlope(usize),
}

/// One gradient update: `gradient(to) += gradient(from) * local`.
#[derive(Debug, Clone, Copy, PartialEq, Eq, Structural)]
pub struct Step {
    pub from: usize,
    pub to: usize,
    pub local: Local,
}

/// The updates that node `n` sends to its operands, by the derivative rule of
/// its operation. A power node sends nothing to its exponent, and a leaf
/// sends nothing at all.
pub open spec fn node_steps(g: Seq<NodeView>, n: usize) -> Seq<Step> {
    let p = g[n as int].prev;
    match g[n as int].op {
        Op::Leaf => seq![],
        Op::Add => seq![
            Step { from: n, to: p[0], local: Local::One },
            Step { from: n, to: p[1], local: Local::One },
        ],
        Op::Sub => seq![
            Step { from: n, to: p[0], local: Local::One },
            Step { from: n, to: p[1], local: Local::MinusOne },
        ],
        Op::Mul => seq![
            Step { from: n, to: p[0], local: Local::ValueOf(p[1]) },
            Step { from: n, to: p[1], local: Local::ValueOf(p[0]) },
        ],
        Op::Div => seq![
            Step { from: n, to: p[0], local: Local::Reciprocal(p[1]) },
            Step { from: n, to: p[1], local: Local::QuotientSlope(p[0], p[1]) },
        ],
        Op::Pow => seq![Step { from: n, to: p[0], local: Local::PowerSlope(p[0], p[1]) }],
        Op::Tanh => seq![Step { from: n, to: p[0], local: Local::TanhSlope(p[0]) }],
    }
}

/// The updates of the nodes `ns`, node after node.
pub open spec fn steps_over(g: Seq<NodeView>, ns: Seq<usize>) -> Seq<Step>
    decreases ns.len(),
{
    if ns.len() == 0 {
        seq![]
    } else {
        steps_over(g, ns.drop_last()) + node_steps(g, ns.last())
    }
}

/// No update reads the gradient of a node before every update into that
/// node has been applied.
pub open spec fn gradients_final_before_use(steps: Seq<Step>) -> bool {
    forall|i: int, k: int|
        0 <= i < steps.len() && 0 <= k < steps.len() && #[trigger] steps[i].to
            == #[trigger] steps[k].from ==> i < k
}

/// What a backward pass from a node does: the topological order of what it
/// depends on, and the updates, node by node in the reverse of that order.
pub struct Backward {
    pub order: Vec<usize>,
    pub steps: Vec<Step>,
}

/// Each update of node `n` goes from `n` to its operand in the same slot.
proof fn lemma_node_steps_shape(g: Seq<NodeView>, n: usize)
    requires
        graph_wf(g),
        n < g.len(),
    ensures
        node_steps(g, n).len() <= g[n as int].prev.len(),
        forall|t: int|
            0 <= t < node_steps(g, n).len() ==> (#[trigger] node_steps(g, n)[t]).from == n
                && node_steps(g, n)[t].to == g[n as int].prev[t],
{
    assert(node_wf(g, n as int));
}

impl Graph {
    /// The updates that node `n` sends to its operands.
    pub fn node_steps(&self, n: usize) -> (r: Vec<Step>)
        requires
            n < self@.len(),
        ensures
            r@ == node_steps(self@, n),
    {
        self.check_wf();
        proof {
            assert(node_wf(self@, n as int));
        }
        let op = self.op(n);
        let r = match op {
            Op::Leaf => Vec::new(),
            Op::Add => {
                let a = self.prev(n, 0);
                let b = self.prev(n, 1);
                vec![Step { from: n, to: a, local: Local::One }, Step { from: n, to: b, local: Local::One }]
            },
            Op::Sub => {
                let a = self.prev(n, 0);
                let b = self.prev(n, 1);
                vec![
                    Step { from: n, to: a, local: Local::One },
                    Step { from: n, to: b, local: Local::MinusOne },
                ]
            },
            Op::Mul => {
                let a = self.prev(n, 0);
                let b = self.prev(n, 1);
                vec![
                    Step { from: n, to: a, local: Local::ValueOf(b) },
                    Step { from: n, to: b, local: Local::ValueOf(a) },
                ]
            },
            Op::Div => {
                let a = self.prev(n, 0);
                let b = self.prev(n, 1);
                vec![
                    Step { from: n, to: a, local: Local::Reciprocal(b) },
                    Step { from: n, to: b, local: Local::QuotientSlope(a, b) },
                ]
            },
            Op::Pow => {
                let a = self.prev(n, 0);
                let e = self.prev(n, 1);
                vec![Step { from: n, to: a, local: Local::PowerSlope(a, e) }]
            },
            Op::Tanh => {
                let a = self.prev(n, 0);
                vec![Step { from: n, to: a, local: Local::TanhSlope(a) }]
            },
        };
        assert(r@ =~= node_steps(self@, n));
        r
    }

    /// Plans the backward pass from `root`: orders what `root` depends on,
    /// then lists the updates of each node, from `root` back to the leaves.
    pub fn backward(&self, root: usize) -> (r: Backward)
        requires
            root < self@.len(),
        ensures
            is_topo_order(self@, root as nat, r.order@),
            r.steps@ == steps_over(self@, r.order@.reverse()),
            gradients_final_before_use(r.steps@),
    {
        self.check_wf();
        let order = self.build_order(root);
        let len = order.len();
        let ghost rev = order@.reverse();
        let mut steps: Vec<Step> = Vec::new();
        let ghost mut pos: Seq<int> = seq![];
        let mut i: usize = 0;
        while i < len
            invariant
                graph_wf(self@),
                is_topo_order(self@, root as nat, order@),
                len == order@.len(),
                rev == order@.reverse(),
                i <= len,
                steps@ == steps_over(self@, rev.take(i as int)),
                pos.len() == steps@.len(),
                forall|s: int|
                    0 <= s < pos.len() ==> len - i <= #[trigger] pos[s] < len && order@[pos[s]]
                        == steps@[s].from && order@.subrange(0, pos[s]).contains(steps@[s].to),
                forall|s: int, t: int| 0 <= s < t < pos.len() ==> pos[s] >= pos[t],
            decreases len - i,
        {
            let n = order[len - 1 - i];
            let mut ns = self.node_steps(n);
            proof {
                let p = len - 1 - i;
                lemma_node_steps_shape(self@, n);
                assert(rev.take(i + 1).drop_last() =~= rev.take(i as int));
                assert(rev.take(i + 1).last() == n);
                let more = Seq::new(ns@.len(), |t: int| p);
                assert forall|t: int| 0 <= t < ns@.len() implies order@.subrange(0, p).contains(
                    ns@[t].to,
                ) by {
                    assert(order@[p] == n);
                    assert(ns@[t].to == self@[order@[p] as int].prev[t]);
                }
                pos = pos + more;
            }
            let ghost old_steps = steps@;
            steps.append(&mut ns);
            proof {
                assert forall|s: int|
                    0 <= s < pos.len() implies len - (i + 1) <= #[trigger] pos[s] < len
                    && order@[pos[s]] == steps@[s].from && order@.subrange(0, pos[s]).contains(
                    steps@[s].to,
                ) by {
                    if s >= old_steps.len() {
                        assert(steps@[s] == node_steps(self@, n)[s - old_steps.len()]);
                    } else {
                        assert(steps@[s] == old_steps[s]);
                    }
                }
            }
            i = i + 1;
        }
        proof {
            assert(rev.take(len as int) =~= rev);
            assert forall|a: int, k: int|
                0 <= a < steps@.len() && 0 <= k < steps@.len() && #[trigger] steps@[a].to
                    == #[trigger] steps@[k].from implies a < k by {
                let q = choose|q: int|
                    0 <= q < order@.subrange(0, pos[a]).len() && order@.subrange(0, pos[a])[q]
                        == steps@[a].to;
                assert(order@[q] == order@[pos[k]]);
                assert(q == pos[k]);
                if k <= a {
                    assert(pos[k] >= pos[a]);
                }
            }
        }
        Backward { order, steps }
    }
}

} // verus!
