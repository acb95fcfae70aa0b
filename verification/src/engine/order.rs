//! The execution order as a mathematical function of the graph.
//!
//! The order is the one that a breadth-first elimination of nodes without
//! pending inputs yields: nodes that nothing feeds enter a queue in ascending
//! position; the node at the front leaves the queue, joins the order, and
//! releases the inputs it feeds, output by output and link by link; a node
//! whose last pending input is released joins the back of the queue.

use vstd::prelude::*;
use crate::engine::graph::Graph;
use crate::engine::node::NodeId;

verus! {

/// Releases one input of node `v`: its count of pending inputs drops by one,
/// and at zero the node joins the back of the queue.
pub open spec fn relax_one(deg: Seq<int>, queue: Seq<NodeId>, v: NodeId) -> (Seq<int>, Seq<NodeId>) {
    let d = deg[v as int] - 1;
    (
        deg.update(v as int, d),
        if d == 0 {
            queue.push(v)
        } else {
            queue
        },
    )
}

/// Releases the inputs that one output feeds; `targets` names their nodes in
/// link order.
pub open spec fn relax_list(deg: Seq<int>, queue: Seq<NodeId>, targets: Seq<NodeId>) -> (
    Seq<int>,
    Seq<NodeId>,
)
    decreases targets.len(),
{
    if targets.len() == 0 {
        (deg, queue)
    } else {
        let r = relax_one(deg, queue, targets[0]);
        relax_list(r.0, r.1, targets.drop_first())
    }
}

/// Releases the inputs that one node feeds, output by output.
pub open spec fn relax_node(deg: Seq<int>, queue: Seq<NodeId>, outs: Seq<Seq<NodeId>>) -> (
    Seq<int>,
    Seq<NodeId>,
)
    decreases outs.len(),
{
    if outs.len() == 0 {
        (deg, queue)
    } else {
        let r = relax_list(deg, queue, outs[0]);
        relax_node(r.0, r.1, outs.drop_first())
    }
}

/// Runs the elimination from a given state for at most `fuel` nodes and
/// returns the order reached.
pub open spec fn kahn_run(
    targets: Seq<Seq<Seq<NodeId>>>,
    deg: Seq<int>,
    queue: Seq<NodeId>,
    order: Seq<NodeId>,
    fuel: nat,
) -> Seq<NodeId>
    decreases fuel,
{
    if fuel == 0 || queue.len() == 0 {
        order
    } else {
        let u = queue[0];
        let r = relax_node(deg, queue.drop_first(), targets[u as int]);
        kahn_run(targets, r.0, r.1, order.push(u), (fuel - 1) as nat)
    }
}

/// The positions below `k` whose count is zero, ascending.
pub open spec fn seeds_upto(deg: Seq<int>, k: int) -> Seq<NodeId>
    decreases k,
{
    if k <= 0 {
        Seq::empty()
    } else {
        let rest = seeds_upto(deg, k - 1);
        if deg[k - 1] == 0 {
            rest.push((k - 1) as usize)
        } else {
            rest
        }
    }
}

/// The order that the elimination yields for the given counts of pending
/// inputs and the given targets of each node's outputs. It is shorter than
/// the number of nodes exactly when some nodes never lose their last pending
/// input.
pub open spec fn kahn_order(deg: Seq<int>, targets: Seq<Seq<Seq<NodeId>>>) -> Seq<NodeId> {
    kahn_run(targets, deg, seeds_upto(deg, deg.len() as int), Seq::empty(), deg.len())
}

/// The seeds are distinct, ascending from nothing, and exactly the positions
/// below `k` whose count is zero.
pub proof fn lemma_seeds_upto(deg: Seq<int>, k: int)
    requires
        0 <= k <= deg.len(),
        k <= usize::MAX,
    ensures
        seeds_upto(deg, k).no_duplicates(),
        seeds_upto(deg, k).len() <= k,
        forall|i: int| 0 <= i < seeds_upto(deg, k).len() ==> #[trigger] seeds_upto(deg, k)[i] < k,
        forall|v: NodeId| #[trigger]
            seeds_upto(deg, k).contains(v) <==> v < k && deg[v as int] == 0,
    decreases k,
{
    if k > 0 {
        lemma_seeds_upto(deg, k - 1);
        let rest = seeds_upto(deg, k - 1);
        let all = seeds_upto(deg, k);
        assert forall|v: NodeId| #[trigger] all.contains(v) <==> v < k && deg[v as int] == 0 by {
            if all.contains(v) {
                let i = choose|i: int| 0 <= i < all.len() && all[i] == v;
                if i < rest.len() {
                    assert(rest[i] == v);
                    assert(rest.contains(v));
                }
            }
            if v < k && deg[v as int] == 0 {
                if v == k - 1 {
                    assert(all[rest.len() as int] == v);
                } else {
                    assert(rest.contains(v));
                    let i = choose|i: int| 0 <= i < rest.len() && rest[i] == v;
                    assert(all[i] == v);
                }
            }
        }
    }
}

/// A list of distinct positions below `n` has at most `n` entries.
pub proof fn lemma_distinct_bounded(s: Seq<NodeId>, n: nat)
    requires
        s.no_duplicates(),
        forall|i: int| 0 <= i < s.len() ==> #[trigger] s[i] < n,
    ensures
        s.len() <= n,
    decreases n,
{
    if s.len() > 0 {
        if n == 0 {
            assert(s[0] < n);
        } else {
            let top = (n - 1) as usize;
            if s.contains(top) {
                let i = choose|i: int| 0 <= i < s.len() && s[i] == top;
                let rest = s.remove(i);
                assert forall|a: int| 0 <= a < rest.len() implies #[trigger] rest[a] < n - 1 by {
                    let a0 = if a < i {
                        a
                    } else {
                        a + 1
                    };
                    assert(rest[a] == s[a0]);
                    assert(s[a0] < n);
                }
                assert forall|a: int, b: int| 0 <= a < rest.len() && 0 <= b < rest.len() && a != b implies rest[a]
                    != rest[b] by {
                    let a0 = if a < i {
                        a
                    } else {
                        a + 1
                    };
                    let b0 = if b < i {
                        b
                    } else {
                        b + 1
                    };
                    assert(rest[a] == s[a0]);
                    assert(rest[b] == s[b0]);
                }
                lemma_distinct_bounded(rest, (n - 1) as nat);
            } else {
                assert forall|a: int| 0 <= a < s.len() implies #[trigger] s[a] < n - 1 by {
                    assert(s[a] < n);
                    assert(s.contains(s[a]));
                }
                lemma_distinct_bounded(s, (n - 1) as nat);
            }
        }
    }
}

/// Releasing the links of a list from position `t` on starts with the link at
/// `t` and goes on from `t + 1`.
pub proof fn lemma_relax_list_step(deg: Seq<int>, queue: Seq<NodeId>, list: Seq<NodeId>, t: int)
    requires
        0 <= t < list.len(),
    ensures
        relax_list(deg, queue, list.subrange(t, list.len() as int)) == ({
            let r = relax_one(deg, queue, list[t]);
            relax_list(r.0, r.1, list.subrange(t + 1, list.len() as int))
        }),
{
    let rest = list.subrange(t, list.len() as int);
    assert(rest[0] == list[t]);
    assert(rest.drop_first() =~= list.subrange(t + 1, list.len() as int));
}

/// Releasing the outputs of a node from position `j` on starts with the output
/// at `j` and goes on from `j + 1`.
pub proof fn lemma_relax_node_step(
    deg: Seq<int>,
    queue: Seq<NodeId>,
    outs: Seq<Seq<NodeId>>,
    j: int,
)
    requires
        0 <= j < outs.len(),
    ensures
        relax_node(deg, queue, outs.subrange(j, outs.len() as int)) == ({
            let r = relax_list(deg, queue, outs[j]);
            relax_node(r.0, r.1, outs.subrange(j + 1, outs.len() as int))
        }),
{
    let rest = outs.subrange(j, outs.len() as int);
    assert(rest[0] == outs[j]);
    assert(rest.drop_first() =~= outs.subrange(j + 1, outs.len() as int));
}

/// How far the elimination has come: the order so far, how many of its nodes
/// have released everything they feed, and, for the node after those, the
/// output and the link within it that is released next.
pub struct Progress {
    pub order: Seq<NodeId>,
    pub done: int,
    pub output: int,
    pub link: int,
}

impl Graph {
    /// Input slot `s` is fed by an output.
    pub open spec fn fed(&self, s: int) -> bool {
        self.inputs()[s].connected_output.is_some()
    }

    /// The node whose output feeds input slot `s`.
    pub open spec fn source_node(&self, s: int) -> NodeId {
        self.outputs()[self.inputs()[s].connected_output.unwrap() as int].properties.parent_id
    }

    /// How many of the first `k` inputs of node `v` are fed.
    pub open spec fn fed_count(&self, v: int, k: int) -> int
        decreases k,
    {
        if k <= 0 {
            0
        } else {
            self.fed_count(v, k - 1) + if self.fed(self.nodes()[v].inputs@[k - 1] as int) {
                1int
            } else {
                0int
            }
        }
    }

    /// For each node, the number of its inputs that are fed.
    pub open spec fn in_degrees(&self) -> Seq<int> {
        Seq::new(
            self.nodes().len(),
            |v: int| self.fed_count(v, self.nodes()[v].inputs@.len() as int),
        )
    }

    /// The nodes that output slot `o` feeds, in link order.
    pub open spec fn output_targets(&self, o: int) -> Seq<NodeId> {
        Seq::new(
            self.outputs()[o].connections@.len(),
            |t: int| self.inputs()[self.outputs()[o].connections@[t] as int].properties.parent_id,
        )
    }

    /// For each node and each of its outputs, the nodes fed, in link order.
    pub open spec fn targets(&self) -> Seq<Seq<Seq<NodeId>>> {
        Seq::new(
            self.nodes().len(),
            |u: int|
                Seq::new(
                    self.nodes()[u].outputs@.len(),
                    |j: int| self.output_targets(self.nodes()[u].outputs@[j] as int),
                ),
        )
    }

    /// The execution order of the graph as it stands; it lists every node
    /// exactly when the graph has no cycle.
    pub open spec fn sorted_order(&self) -> Seq<NodeId> {
        kahn_order(self.in_degrees(), self.targets())
    }
}

} // verus!
