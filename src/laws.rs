//! Laws of the backward pass on small graphs, stated over the updates it
//! applies.
use vstd::prelude::*;
use crate::backward::{Local, Step, node_steps, steps_over};
use crate::graph::{NodeView, Op, arity, graph_wf, node_wf, reaches};
use crate::topo::{is_topo_order, lemma_reaches_step};

verus! {

/// When every node after the first sends no update, the updates of a list
/// of nodes are those of its first node.
pub proof fn lemma_steps_over_first(g: Seq<NodeView>, ns: Seq<usize>)
    requires
        ns.len() >= 1,
        forall|k: int| 1 <= k < ns.len() ==> node_steps(g, #[trigger] ns[k]) == Seq::<Step>::empty(),
    ensures
        steps_over(g, ns) == node_steps(g, ns[0]),
    decreases ns.len(),
{
    if ns.len() == 1 {
        assert(ns.drop_last() =~= seq![]);
        assert(steps_over(g, ns.drop_last()) == Seq::<Step>::empty());
        assert(steps_over(g, ns) =~= node_steps(g, ns[0]));
    } else {
        let front = ns.drop_last();
        assert forall|k: int| 1 <= k < front.len() implies node_steps(g, #[trigger] front[k])
            == Seq::<Step>::empty() by {
            assert(front[k] == ns[k]);
        }
        lemma_steps_over_first(g, front);
        assert(node_steps(g, ns.last()) == Seq::<Step>::empty());
        assert(steps_over(g, ns) =~= node_steps(g, ns[0]));
    }
}

/// A leaf reaches nothing but itself.
pub proof fn lemma_leaf_reaches_itself(g: Seq<NodeView>, a: nat, x: nat)
    requires
        graph_wf(g),
        a < g.len(),
        g[a as int].op == Op::Leaf,
        reaches(g, a, x),
    ensures
        x == a,
{
    if x != a {
        lemma_reaches_step(g, a, x);
        assert(node_wf(g, a as int));
    }
}

/// A backward pass from a binary node over two leaves sends exactly the two
/// updates of that node, and nothing else.
proof fn lemma_binary_over_leaves(
    g: Seq<NodeView>,
    op: Op,
    a: usize,
    b: usize,
    order: Seq<usize>,
)
    requires
        graph_wf(g.push(NodeView { op, prev: seq![a, b] })),
        a < g.len(),
        b < g.len(),
        g[a as int].op == Op::Leaf,
        g[b as int].op == Op::Leaf,
        g.len() <= usize::MAX,
        is_topo_order(g.push(NodeView { op, prev: seq![a, b] }), g.len(), order),
    ensures
        steps_over(g.push(NodeView { op, prev: seq![a, b] }), order.reverse()) == node_steps(
            g.push(NodeView { op, prev: seq![a, b] }),
            g.len() as usize,
        ),
{
    let h = g.push(NodeView { op, prev: seq![a, b] });
    let c = g.len() as usize;
    let rev = order.reverse();
    assert forall|k: int| 1 <= k < rev.len() implies node_steps(h, #[trigger] rev[k])
        == Seq::<Step>::empty() by {
        let x = rev[k];
        let p = order.len() - 1 - k;
        assert(x == order[p]);
        assert(order[p] != order[order.len() - 1]);
        assert(order.contains(x));
        assert(reaches(h, c as nat, x as nat));
        lemma_reaches_step(h, c as nat, x as nat);
        let j = choose|j: int|
            0 <= j < h[c as int].prev.len() && #[trigger] reaches(h, h[c as int].prev[j] as nat, x as nat);
        assert(h[c as int].prev == seq![a, b]);
        if j == 0 {
            lemma_leaf_reaches_itself(h, a as nat, x as nat);
        } else {
            lemma_leaf_reaches_itself(h, b as nat, x as nat);
        }
    }
    assert(rev[0] == c);
    lemma_steps_over_first(h, rev);
}

/// Backward from `a + b`, for leaves `a` and `b`: the sum passes its own
/// gradient, seeded with one, to each operand with local derivative one.
/// Nothing else is updated, so each of two distinct leaves ends with
/// gradient one.
pub proof fn law_add_of_leaves(g: Seq<NodeView>, a: usize, b: usize, order: Seq<usize>)
    requires
        graph_wf(g),
        a < g.len(),
        b < g.len(),
        g.len() < usize::MAX,
        g[a as int].op == Op::Leaf,
        g[b as int].op == Op::Leaf,
        is_topo_order(g.push(NodeView { op: Op::Add, prev: seq![a, b] }), g.len(), order),
    ensures
        steps_over(g.push(NodeView { op: Op::Add, prev: seq![a, b] }), order.reverse()) == seq![
            Step { from: g.len() as usize, to: a, local: Local::One },
            Step { from: g.len() as usize, to: b, local: Local::One },
        ],
{
    let h = g.push(NodeView { op: Op::Add, prev: seq![a, b] });
    lemma_push_wf(g, Op::Add, a, b);
    lemma_binary_over_leaves(g, Op::Add, a, b, order);
    assert(node_steps(h, g.len() as usize) =~= seq![
        Step { from: g.len() as usize, to: a, local: Local::One },
        Step { from: g.len() as usize, to: b, local: Local::One },
    ]);
}

/// Backward from `a * b`, for leaves `a` and `b`: `a` is scaled by the value
/// of `b` and `b` by the value of `a`, and nothing else is updated.
pub proof fn law_mul_of_leaves(g: Seq<NodeView>, a: usize, b: usize, order: Seq<usize>)
    requires
        graph_wf(g),
        a < g.len(),
        b < g.len(),
        g.len() < usize::MAX,
        g[a as int].op == Op::Leaf,
        g[b as int].op == Op::Leaf,
        is_topo_order(g.push(NodeView { op: Op::Mul, prev: seq![a, b] }), g.len(), order),
    ensures
        steps_over(g.push(NodeView { op: Op::Mul, prev: seq![a, b] }), order.reverse()) == seq![
            Step { from: g.len() as usize, to: a, local: Local::ValueOf(b) },
            Step { from: g.len() as usize, to: b, local: Local::ValueOf(a) },
        ],
{
    let h = g.push(NodeView { op: Op::Mul, prev: seq![a, b] });
    lemma_push_wf(g, Op::Mul, a, b);
    lemma_binary_over_leaves(g, Op::Mul, a, b, order);
    assert(node_steps(h, g.len() as usize) =~= seq![
        Step { from: g.len() as usize, to: a, local: Local::ValueOf(b) },
        Step { from: g.len() as usize, to: b, local: Local::ValueOf(a) },
    ]);
}

/// Appending a binary node over existing nodes keeps a graph well formed.
pub proof fn lemma_push_wf(g: Seq<NodeView>, op: Op, a: usize, b: usize)
    requires
        graph_wf(g),
        arity(op) == 2,
        a < g.len(),
        b < g.len(),
    ensures
        graph_wf(g.push(NodeView { op, prev: seq![a, b] })),
{
    let h = g.push(NodeView { op, prev: seq![a, b] });
    assert forall|i: int| 0 <= i < h.len() implies #[trigger] node_wf(h, i) by {
        if i < g.len() {
            assert(node_wf(g, i));
            assert(h[i] == g[i]);
        }
    }
}

/// Fan-out: backward from `a * a + a`, for a leaf `a`. The sum passes one to
/// the product and one to `a`; the product then passes its gradient to `a`
/// twice, each time scaled by the value of `a`. So the gradient of `a` sums
/// to `1 + a + a`, the derivative `2a + 1`.
pub proof fn law_fan_out(g: Seq<NodeView>, a: usize, order: Seq<usize>)
    requires
        graph_wf(g),
        a < g.len(),
        g.len() + 1 < usize::MAX,
        g[a as int].op == Op::Leaf,
        is_topo_order(
            g.push(NodeView { op: Op::Mul, prev: seq![a, a] }).push(
                NodeView { op: Op::Add, prev: seq![g.len() as usize, a] },
            ),
            g.len() + 1,
            order,
        ),
    ensures
        steps_over(
            g.push(NodeView { op: Op::Mul, prev: seq![a, a] }).push(
                NodeView { op: Op::Add, prev: seq![g.len() as usize, a] },
            ),
            order.reverse(),
        ) == seq![
            Step { from: (g.len() + 1) as usize, to: g.len() as usize, local: Local::One },
            Step { from: (g.len() + 1) as usize, to: a, local: Local::One },
            Step { from: g.len() as usize, to: a, local: Local::ValueOf(a) },
            Step { from: g.len() as usize, to: a, local: Local::ValueOf(a) },
        ],
{
    let m = g.len() as usize;
    let s = (g.len() + 1) as usize;
    let g1 = g.push(NodeView { op: Op::Mul, prev: seq![a, a] });
    let h = g1.push(NodeView { op: Op::Add, prev: seq![m, a] });
    lemma_push_wf(g, Op::Mul, a, a);
    lemma_push_wf(g1, Op::Add, m, a);
    assert(h[a as int] == g[a as int]);
    assert(h[m as int].prev == seq![a, a]);
    assert(h[s as int].prev == seq![m, a]);
    // Every listed node is `s`, `m` or `a`.
    assert forall|k: int| 0 <= k < order.len() implies #[trigger] order[k] == s || order[k] == m
        || order[k] == a by {
        let x = order[k];
        assert(order.contains(x));
        if x != s {
            lemma_reaches_step(h, s as nat, x as nat);
            let j = choose|j: int|
                0 <= j < h[s as int].prev.len() && #[trigger] reaches(
                    h,
                    h[s as int].prev[j] as nat,
                    x as nat,
                );
            if j == 0 && x != m {
                lemma_reaches_step(h, m as nat, x as nat);
                let i = choose|i: int|
                    0 <= i < h[m as int].prev.len() && #[trigger] reaches(
                        h,
                        h[m as int].prev[i] as nat,
                        x as nat,
                    );
                lemma_leaf_reaches_itself(h, a as nat, x as nat);
            } else if j == 1 {
                lemma_leaf_reaches_itself(h, a as nat, x as nat);
            }
        }
    }
    // `m` and `a` are listed, `a` before `m`.
    assert(reaches(h, a as nat, a as nat));
    assert(reaches(h, m as nat, a as nat));
    assert(reaches(h, s as nat, a as nat));
    assert(reaches(h, m as nat, m as nat));
    assert(reaches(h, s as nat, m as nat));
    assert(order.contains(a));
    assert(order.contains(m));
    let pa = choose|q: int| 0 <= q < order.len() && order[q] == a;
    let pm = choose|q: int| 0 <= q < order.len() && order[q] == m;
    let ps = order.len() - 1;
    assert(order.subrange(0, pm).contains(h[order[pm] as int].prev[0]));
    let q = choose|q: int| 0 <= q < order.subrange(0, pm).len() && order.subrange(0, pm)[q] == a;
    assert(order[q] == a);
    assert(q == pa);
    // So the order is `a`, `m`, `s`.
    assert(pa < pm);
    assert(pm < ps);
    assert(order[0] == s || order[0] == m || order[0] == a);
    assert(order[1] == s || order[1] == m || order[1] == a);
    assert(order[2] == s || order[2] == m || order[2] == a);
    assert(order[ps] == s);
    assert(pa == 0) by {
        if order[0] == m {
            assert(order[0] == order[pm]);
        } else if order[0] == s {
            assert(order[0] == order[ps]);
        } else {
            assert(order[0] == order[pa]);
        }
    }
    assert(pm == 1) by {
        if order[1] == a {
            assert(order[1] == order[pa]);
        } else if order[1] == s {
            assert(order[1] == order[ps]);
        } else {
            assert(order[1] == order[pm]);
        }
    }
    assert(ps == 2) by {
        if order[2] == a {
            assert(order[2] == order[pa]);
        } else if order[2] == m {
            assert(order[2] == order[pm]);
        } else {
            assert(order[2] == order[ps]);
        }
    }
    assert(order[1] == m);
    assert(order[2] == s);
    assert(order.len() == 3);
    assert(order =~= seq![a, m, s]);
    let rev = order.reverse();
    assert(rev =~= seq![s, m, a]);
    assert(rev.drop_last() =~= seq![s, m]);
    assert(rev.drop_last().drop_last() =~= seq![s]);
    assert(rev.drop_last().drop_last().drop_last() =~= seq![]);
    assert(node_steps(h, a) =~= seq![]);
    assert(steps_over(h, seq![]) == Seq::<Step>::empty());
    assert(steps_over(h, seq![s]) =~= node_steps(h, s));
    assert(steps_over(h, seq![s, m]) =~= node_steps(h, s) + node_steps(h, m));
    assert(steps_over(h, rev) =~= node_steps(h, s) + node_steps(h, m));
}

} // verus!
