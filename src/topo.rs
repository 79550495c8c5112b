//! Topological order of the nodes that an output depends on.
use vstd::prelude::*;
use crate::graph::{Graph, NodeView, graph_wf, node_wf, reaches};

verus! {

/// Every operand of `order[k]` appears in `order` before position `k`.
pub open spec fn operands_first(g: Seq<NodeView>, order: Seq<usize>) -> bool {
    forall|k: int, j: int|
        0 <= k < order.len() && 0 <= j < g[order[k] as int].prev.len() ==> order.subrange(
            0,
            k,
        ).contains(#[trigger] g[order[k] as int].prev[j])
}

/// `order` lists, once each, exactly the nodes that `root` depends on
/// (itself included), every node after its operands, and ends with `root`.
pub open spec fn is_topo_order(g: Seq<NodeView>, root: nat, order: Seq<usize>) -> bool {
    &&& order.no_duplicates()
    &&& forall|k: int| 0 <= k < order.len() ==> #[trigger] order[k] < g.len()
    &&& forall|x: usize| #[trigger] order.contains(x) <==> reaches(g, root, x as nat)
    &&& operands_first(g, order)
    &&& order.len() > 0
    &&& order.last() == root
}

/// A node other than `to` reaches `to` through one of its operands.
pub proof fn lemma_reaches_step(g: Seq<NodeView>, from: nat, to: nat)
    requires
        graph_wf(g),
        reaches(g, from, to),
        from != to,
    ensures
        from < g.len(),
        exists|j: int|
            0 <= j < g[from as int].prev.len() && #[trigger] reaches(
                g,
                g[from as int].prev[j] as nat,
                to,
            ),
{
    if g[from as int].prev.len() > 0 && g[from as int].prev[0] < from && reaches(
        g,
        g[from as int].prev[0] as nat,
        to,
    ) {
        assert(reaches(g, g[from as int].prev[0] as nat, to));
    } else {
        assert(reaches(g, g[from as int].prev[1] as nat, to));
    }
}

/// A node reaches whatever one of its operands reaches.
pub proof fn lemma_operand_reaches(g: Seq<NodeView>, from: nat, j: int, to: nat)
    requires
        graph_wf(g),
        from < g.len(),
        0 <= j < g[from as int].prev.len(),
        reaches(g, g[from as int].prev[j] as nat, to),
    ensures
        reaches(g, from, to),
{
    assert(node_wf(g, from as int));
    assert(g[from as int].prev[j] < from);
    if j == 0 {
        assert(reaches(g, from, to));
    } else {
        assert(j == 1);
        assert(reaches(g, from, to));
    }
}

/// A node only reaches nodes at or below its own index.
pub proof fn lemma_reaches_below(g: Seq<NodeView>, from: nat, to: nat)
    requires
        graph_wf(g),
        reaches(g, from, to),
    ensures
        to <= from,
    decreases from,
{
    if from != to {
        lemma_reaches_step(g, from, to);
        let j = choose|j: int|
            0 <= j < g[from as int].prev.len() && #[trigger] reaches(
                g,
                g[from as int].prev[j] as nat,
                to,
            );
        assert(node_wf(g, from as int));
        lemma_reaches_below(g, g[from as int].prev[j] as nat, to);
    }
}

/// A node reaches each of its operands.
pub proof fn lemma_reaches_operand(g: Seq<NodeView>, n: nat, j: int)
    requires
        graph_wf(g),
        n < g.len(),
        0 <= j < g[n as int].prev.len(),
    ensures
        reaches(g, n, g[n as int].prev[j] as nat),
{
    let p = g[n as int].prev[j] as nat;
    assert(reaches(g, p, p));
    lemma_operand_reaches(g, n, j, p);
}

/// A set of nodes that holds the operands of each of its members holds
/// everything that its members reach.
proof fn lemma_closed_holds_reach(g: Seq<NodeView>, s: Seq<usize>, n: usize, x: nat)
    requires
        graph_wf(g),
        operands_first(g, s),
        s.contains(n),
        reaches(g, n as nat, x),
    ensures
        x <= usize::MAX,
        s.contains(x as usize),
    decreases n,
{
    if n as nat != x {
        lemma_reaches_step(g, n as nat, x);
        let j = choose|j: int|
            0 <= j < g[n as int].prev.len() && #[trigger] reaches(g, g[n as int].prev[j] as nat, x);
        assert(node_wf(g, n as int));
        let k = choose|k: int| 0 <= k < s.len() && s[k] == n;
        let p = g[n as int].prev[j];
        assert(s.subrange(0, k).contains(g[s[k] as int].prev[j]));
        let q = choose|q: int| 0 <= q < k && s.subrange(0, k)[q] == p;
        assert(s[q] == p);
        lemma_closed_holds_reach(g, s, p, x);
    }
}

/// Invariant of the depth-first walk: `order` is a topological listing of a
/// set of nodes closed under operands, and `visited` marks its members.
spec fn walk_inv(g: Seq<NodeView>, visited: Seq<bool>, order: Seq<usize>) -> bool {
    &&& visited.len() == g.len()
    &&& order.no_duplicates()
    &&& forall|k: int| 0 <= k < order.len() ==> #[trigger] order[k] < g.len()
    &&& forall|x: usize| x < g.len() ==> (#[trigger] visited[x as int] <==> order.contains(x))
    &&& operands_first(g, order)
}

/// Depth-first post-order walk from `n`: appends to `order` every node that
/// `n` reaches and that is not yet there, each after its operands.
fn visit(g: &Graph, n: usize, visited: &mut Vec<bool>, order: &mut Vec<usize>)
    requires
        graph_wf(g@),
        n < g@.len(),
        walk_inv(g@, old(visited)@, old(order)@),
    ensures
        walk_inv(g@, final(visited)@, final(order)@),
        final(order)@.len() >= old(order)@.len(),
        final(order)@.subrange(0, old(order)@.len() as int) == old(order)@,
        !old(visited)@[n as int] ==> final(order)@.len() > 0 && final(order)@.last() == n,
        forall|x: usize| #[trigger]
            final(order)@.contains(x) <==> (old(order)@.contains(x) || reaches(
                g@,
                n as nat,
                x as nat,
            )),
    decreases n,
{
    if visited[n] {
        assert forall|x: usize| #[trigger]
            order@.contains(x) <==> (order@.contains(x) || reaches(g@, n as nat, x as nat)) by {
            if reaches(g@, n as nat, x as nat) {
                lemma_closed_holds_reach(g@, order@, n, x as nat);
            }
        }
        assert(order@.subrange(0, order@.len() as int) =~= order@);
        return ;
    }
    let ghost start = order@;
    assert(node_wf(g@, n as int));
    let len = g.prev_len(n);
    let mut j: usize = 0;
    while j < len
        invariant
            graph_wf(g@),
            n < g@.len(),
            len == g@[n as int].prev.len(),
            node_wf(g@, n as int),
            j <= len,
            walk_inv(g@, visited@, order@),
            order@.len() >= start.len(),
            order@.subrange(0, start.len() as int) == start,
            !start.contains(n),
            forall|x: usize| #[trigger]
                order@.contains(x) <==> (start.contains(x) || exists|i: int|
                    0 <= i < j && reaches(g@, #[trigger] g@[n as int].prev[i] as nat, x as nat)),
        decreases len - j,
    {
        let c = g.prev(n, j);
        let ghost before = order@;
        visit(g, c, visited, order);
        proof {
            assert(order@.subrange(0, start.len() as int) =~= order@.subrange(
                0,
                before.len() as int,
            ).subrange(0, start.len() as int));
            assert forall|x: usize| #[trigger]
                order@.contains(x) <==> (start.contains(x) || exists|i: int|
                    0 <= i < j + 1 && reaches(
                        g@,
                        #[trigger] g@[n as int].prev[i] as nat,
                        x as nat,
                    )) by {
                if exists|i: int|
                    0 <= i < j + 1 && reaches(g@, #[trigger] g@[n as int].prev[i] as nat, x as nat) {
                    let i = choose|i: int|
                        0 <= i < j + 1 && reaches(
                            g@,
                            #[trigger] g@[n as int].prev[i] as nat,
                            x as nat,
                        );
                    if i < j {
                        assert(before.contains(x));
                    }
                }
            }
        }
        j = j + 1;
    }
    proof {
        assert forall|x: usize| order@.contains(x) implies x != n by {
            if !start.contains(x) {
                let i = choose|i: int|
                    0 <= i < len && reaches(g@, #[trigger] g@[n as int].prev[i] as nat, x as nat);
                lemma_reaches_below(g@, g@[n as int].prev[i] as nat, x as nat);
            }
        }
    }
    let ghost mid = order@;
    let ghost seen = visited@;
    order.push(n);
    visited.set(n, true);
    proof {
        assert(order@.subrange(0, start.len() as int) =~= mid.subrange(0, start.len() as int));
        assert forall|k: int, i: int|
            0 <= k < order@.len() && 0 <= i < g@[order@[k] as int].prev.len() implies order@.subrange(
            0,
            k,
        ).contains(#[trigger] g@[order@[k] as int].prev[i]) by {
            if k < mid.len() {
                assert(order@.subrange(0, k) =~= mid.subrange(0, k));
                assert(mid.subrange(0, k).contains(g@[mid[k] as int].prev[i]));
            } else {
                assert(order@.subrange(0, k) =~= mid);
                lemma_reaches_operand(g@, n as nat, i);
                let p = g@[n as int].prev[i];
                assert(reaches(g@, p as nat, p as nat));
            }
        }
        assert forall|y: usize| #[trigger] order@.contains(y) <==> (mid.contains(y) || y == n) by {
            if order@.contains(y) && y != n {
                let k = choose|k: int| 0 <= k < order@.len() && order@[k] == y;
                assert(mid[k] == y);
            }
            if mid.contains(y) {
                let k = choose|k: int| 0 <= k < mid.len() && mid[k] == y;
                assert(order@[k] == y);
            }
            if y == n {
                assert(order@[mid.len() as int] == n);
            }
        }
        assert forall|x: usize| #[trigger]
            order@.contains(x) <==> (start.contains(x) || reaches(g@, n as nat, x as nat)) by {
            assert(order@.contains(x) <==> (mid.contains(x) || x == n));
            if mid.contains(x) && !start.contains(x) {
                let i = choose|i: int|
                    0 <= i < len && reaches(g@, #[trigger] g@[n as int].prev[i] as nat, x as nat);
                lemma_operand_reaches(g@, n as nat, i, x as nat);
            }
            if reaches(g@, n as nat, x as nat) && x != n {
                lemma_reaches_step(g@, n as nat, x as nat);
                let i = choose|i: int|
                    0 <= i < g@[n as int].prev.len() && #[trigger] reaches(
                        g@,
                        g@[n as int].prev[i] as nat,
                        x as nat,
                    );
                assert(mid.contains(x));
            }
            if x == n {
                assert(reaches(g@, n as nat, n as nat));
            }
        }
        assert forall|x: usize| x < g@.len() implies (#[trigger] visited@[x as int]
            <==> order@.contains(x)) by {
            assert(order@.contains(x) <==> (mid.contains(x) || x == n));
            if x != n {
                assert(visited@[x as int] == seen[x as int]);
            }
        }
        assert forall|i: int, k: int| 0 <= i < k < order@.len() implies order@[i] != order@[k] by {
            if k == mid.len() {
                assert(mid.contains(mid[i]));
            } else {
                assert(mid[i] != mid[k]);
            }
        }
    }
}

impl Graph {
    /// The nodes that `root` depends on, itself included, each listed once
    /// and after all of its operands, by a depth-first post-order walk that
    /// takes operands in their recorded order.
    pub fn build_order(&self, root: usize) -> (r: Vec<usize>)
        requires
            root < self@.len(),
        ensures
            is_topo_order(self@, root as nat, r@),
    {
        self.check_wf();
        let mut visited: Vec<bool> = Vec::new();
        let n = self.len();
        let mut i: usize = 0;
        while i < n
            invariant
                i <= n,
                n == self@.len(),
                visited@.len() == i,
                forall|x: usize| x < i ==> !(#[trigger] visited@[x as int]),
            decreases n - i,
        {
            visited.push(false);
            i = i + 1;
        }
        let mut order: Vec<usize> = Vec::new();
        visit(self, root, &mut visited, &mut order);
        proof {
            assert(reaches(self@, root as nat, root as nat));
            assert(order@.contains(root));
            assert(!Seq::<usize>::empty().contains(root));
        }
        order
    }
}

} // verus!
