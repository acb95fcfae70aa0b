//! Cycles, and why the elimination lists every node exactly when there is
//! none.

use vstd::prelude::*;
use crate::engine::evaluation::lemma_permutation_covers;
use crate::engine::graph::Graph;
use crate::engine::node::NodeId;
use crate::engine::order::{
    kahn_run, lemma_distinct_bounded, lemma_relax_list_step, lemma_relax_node_step,
    lemma_seeds_upto, relax_list, relax_node, seeds_upto, Progress,
};

verus! {

/// A list that holds every position below `n` has at least `n` entries.
pub proof fn lemma_covering_long(list: Seq<NodeId>, n: nat)
    requires
        n <= usize::MAX,
        forall|v: NodeId| v < n ==> #[trigger] list.contains(v),
    ensures
        list.len() >= n,
    decreases n,
{
    if n > 0 {
        let top = (n - 1) as usize;
        assert(list.contains(top));
        let i = choose|i: int| 0 <= i < list.len() && list[i] == top;
        let rest = list.remove(i);
        assert forall|v: NodeId| v < n - 1 implies #[trigger] rest.contains(v) by {
            assert(list.contains(v));
            let j = choose|j: int| 0 <= j < list.len() && list[j] == v;
            let j2 = if j < i {
                j
            } else {
                j - 1
            };
            assert(rest[j2] == v);
        }
        lemma_covering_long(rest, (n - 1) as nat);
    }
}

/// Where `v` stands in `order`.
pub open spec fn position(order: Seq<NodeId>, v: NodeId) -> int {
    choose|p: int| 0 <= p < order.len() && order[p] == v
}

impl Graph {
    /// Node `a` feeds node `b`: an output of `a` is linked to an input of `b`.
    pub open spec fn feeds(&self, a: NodeId, b: NodeId) -> bool {
        exists|s: int|
            0 <= s < self.inputs().len() && #[trigger] self.fed(s) && self.source_node(s) == a
                && self.inputs()[s].properties.parent_id == b
    }

    /// Every node of `path` feeds the next.
    pub open spec fn is_path(&self, path: Seq<NodeId>) -> bool {
        forall|i: int| 0 <= i < path.len() - 1 ==> self.feeds(#[trigger] path[i], path[i + 1])
    }

    /// `path` leads from a node back to itself along at least one link.
    pub open spec fn is_cycle(&self, path: Seq<NodeId>) -> bool {
        &&& path.len() >= 2
        &&& path[0] == path.last()
        &&& self.is_path(path)
    }

    /// Some node's output feeds, directly or through other nodes, back into
    /// one of its own inputs.
    pub open spec fn has_cycle(&self) -> bool {
        exists|path: Seq<NodeId>| self.is_cycle(path)
    }

    /// In a valid order a node that feeds another stands before it.
    pub proof fn lemma_feeder_stands_before(&self, order: Seq<NodeId>, a: NodeId, b: NodeId)
        requires
            self.slots_linked(),
            self.connections_symmetric(),
            self.is_topological(order),
            self.feeds(a, b),
        ensures
            order.contains(a),
            order.contains(b),
            position(order, a) < position(order, b),
    {
        self.lemma_counts_bounded();
        let s = choose|s: int|
            0 <= s < self.inputs().len() && #[trigger] self.fed(s) && self.source_node(s) == a
                && self.inputs()[s].properties.parent_id == b;
        assert(self.input_owned(s));
        assert(self.input_linked(s));
        let o = self.inputs()[s].connected_output.unwrap() as int;
        assert(self.output_owned(o));
        lemma_permutation_covers(order, self.nodes().len(), a);
        lemma_permutation_covers(order, self.nodes().len(), b);
        assert(self.edge_ordered(order, s));
        let p = position(order, b);
        let q = position(order, a);
        assert(order[p] == b && order[q] == a);
    }

    /// Along a path the positions in a valid order ascend.
    pub proof fn lemma_path_ascends(&self, order: Seq<NodeId>, path: Seq<NodeId>, i: int)
        requires
            self.slots_linked(),
            self.connections_symmetric(),
            self.is_topological(order),
            self.is_path(path),
            1 <= i < path.len(),
        ensures
            position(order, path[0]) < position(order, path[i]),
        decreases i,
    {
        assert(self.feeds(path[i - 1], path[i - 1 + 1]));
        self.lemma_feeder_stands_before(order, path[i - 1], path[i]);
        if i > 1 {
            self.lemma_path_ascends(order, path, i - 1);
        }
    }

    /// A graph that has a valid order has no cycle.
    pub proof fn lemma_order_excludes_cycle(&self, order: Seq<NodeId>)
        requires
            self.slots_linked(),
            self.connections_symmetric(),
            self.is_topological(order),
        ensures
            !self.has_cycle(),
    {
        if self.has_cycle() {
            let path = choose|path: Seq<NodeId>| self.is_cycle(path);
            self.lemma_path_ascends(order, path, path.len() - 1);
        }
    }

    /// A node outside `order` that feeds `v`, if there is one.
    pub open spec fn unlisted_feeder(&self, order: Seq<NodeId>, v: NodeId) -> NodeId {
        choose|u: NodeId| u < self.nodes().len() && !order.contains(u) && self.feeds(u, v)
    }

    /// The walk that starts at `start` and steps `k` times to an unlisted
    /// feeder of the node reached.
    pub open spec fn walk_back(&self, order: Seq<NodeId>, start: NodeId, k: nat) -> Seq<NodeId>
        decreases k,
    {
        if k == 0 {
            seq![start]
        } else {
            let before = self.walk_back(order, start, (k - 1) as nat);
            before.push(self.unlisted_feeder(order, before.last()))
        }
    }

    /// A positive count of awaiting inputs names one.
    proof fn lemma_pending_positive(&self, v: int, k: int, p: Progress) -> (i: int)
        requires
            self.pending(v, k, p) > 0,
        ensures
            0 <= i < k,
            self.awaits(self.nodes()[v].inputs@[i] as int, p),
        decreases k,
    {
        if k <= 0 {
            0
        } else if self.awaits(self.nodes()[v].inputs@[k - 1] as int, p) {
            k - 1
        } else {
            self.lemma_pending_positive(v, k - 1, p)
        }
    }

    /// When the elimination has stopped short, every node outside the order
    /// is fed by a node outside the order.
    proof fn lemma_stuck_feeder(&self, deg: Seq<int>, p: Progress, v: NodeId)
        requires
            self.slots_linked(),
            self.connections_symmetric(),
            self.sorting(deg, Seq::empty(), p),
            p.done == p.order.len(),
            v < self.nodes().len(),
            !p.order.contains(v),
        ensures
            self.unlisted_feeder(p.order, v) < self.nodes().len(),
            !p.order.contains(self.unlisted_feeder(p.order, v)),
            self.feeds(self.unlisted_feeder(p.order, v), v),
    {
        self.lemma_counts_bounded();
        let listed = p.order + Seq::<NodeId>::empty();
        assert(listed =~= p.order);
        assert(listed.contains(v) <==> deg[v as int] == 0);
        let len = self.nodes()[v as int].inputs@.len() as int;
        assert(deg[v as int] == self.pending(v as int, len, p));
        self.lemma_pending_range(v as int, len, p);
        let k = self.lemma_pending_positive(v as int, len, p);
        assert(self.input_listed(v as int, k));
        let s = self.nodes()[v as int].inputs@[k] as int;
        assert(self.input_linked(s));
        let o = self.inputs()[s].connected_output.unwrap() as int;
        assert(self.output_owned(o));
        let u = self.source_node(s);
        assert(p.order.take(p.done) =~= p.order);
        assert(!p.order.contains(u));
        assert(self.fed(s) && self.source_node(s) == u && self.inputs()[s].properties.parent_id == v);
        assert(self.feeds(u, v));
    }

    proof fn lemma_walk_back(&self, deg: Seq<int>, p: Progress, start: NodeId, k: nat)
        requires
            self.slots_linked(),
            self.connections_symmetric(),
            self.sorting(deg, Seq::empty(), p),
            p.done == p.order.len(),
            start < self.nodes().len(),
            !p.order.contains(start),
        ensures
            self.walk_back(p.order, start, k).len() == k + 1,
            forall|i: int|
                0 <= i <= k ==> {
                    &&& #[trigger] self.walk_back(p.order, start, k)[i] < self.nodes().len()
                    &&& !p.order.contains(self.walk_back(p.order, start, k)[i])
                },
            forall|i: int|
                0 <= i < k ==> self.feeds(
                    self.walk_back(p.order, start, k)[i + 1],
                    #[trigger] self.walk_back(p.order, start, k)[i],
                ),
        decreases k,
    {
        if k > 0 {
            self.lemma_walk_back(deg, p, start, (k - 1) as nat);
            let before = self.walk_back(p.order, start, (k - 1) as nat);
            let walk = self.walk_back(p.order, start, k);
            assert(before[k - 1] < self.nodes().len());
            self.lemma_stuck_feeder(deg, p, before.last());
            assert forall|i: int| 0 <= i <= k implies {
                &&& #[trigger] walk[i] < self.nodes().len()
                &&& !p.order.contains(walk[i])
            } by {
                if i < k {
                    assert(walk[i] == before[i]);
                }
            }
            assert forall|i: int| 0 <= i < k implies self.feeds(walk[i + 1], #[trigger] walk[i]) by {
                if i < k - 1 {
                    assert(walk[i] == before[i]);
                    assert(walk[i + 1] == before[i + 1]);
                }
            }
        }
    }

    /// When the elimination stops before every node has joined the order, the
    /// graph has a cycle: walking back from a node outside the order, always
    /// to a feeder outside the order, must come by some node twice.
    pub proof fn lemma_stuck_has_cycle(&self, deg: Seq<int>, p: Progress)
        requires
            self.slots_linked(),
            self.connections_symmetric(),
            self.sorting(deg, Seq::empty(), p),
            p.done == p.order.len(),
            p.order.len() < self.nodes().len(),
        ensures
            self.has_cycle(),
    {
        self.lemma_counts_bounded();
        let n = self.nodes().len();
        let order = p.order;
        assert(order + Seq::<NodeId>::empty() =~= order);
        // some node is outside the order
        if forall|v: NodeId| v < n ==> #[trigger] order.contains(v) {
            lemma_covering_long(order, n);
        }
        let start = choose|v: NodeId| v < n && !order.contains(v);
        let walk = self.walk_back(order, start, n);
        self.lemma_walk_back(deg, p, start, n);
        // the walk comes by some node twice
        if walk.no_duplicates() {
            lemma_distinct_bounded(walk, n);
        }
        let (i, j) = choose|i: int, j: int|
            0 <= i < walk.len() && 0 <= j < walk.len() && i != j && walk[i] == walk[j];
        let lo = if i < j {
            i
        } else {
            j
        };
        let hi = if i < j {
            j
        } else {
            i
        };
        let path = Seq::new((hi - lo + 1) as nat, |m: int| walk[hi - m]);
        assert forall|m: int| 0 <= m < path.len() - 1 implies self.feeds(
            #[trigger] path[m],
            path[m + 1],
        ) by {
            let x = hi - m - 1;
            assert(self.feeds(walk[x + 1], walk[x]));
        }
        assert(self.is_cycle(path));
    }

    /// Releasing the links of the output at work, from the link that is next,
    /// keeps the state of the elimination sound.
    proof fn lemma_relax_list_sound(&self, deg: Seq<int>, queue: Seq<NodeId>, p: Progress)
        requires
            self.slots_linked(),
            self.connections_symmetric(),
            self.sorting(deg, queue, p),
            p.done + 1 == p.order.len(),
            0 <= p.output < self.nodes()[p.order[p.done] as int].outputs@.len(),
            0 <= p.link <= self.targets()[p.order[p.done] as int][p.output].len(),
        ensures
            ({
                let list = self.targets()[p.order[p.done] as int][p.output];
                let r = relax_list(deg, queue, list.subrange(p.link, list.len() as int));
                self.sorting(r.0, r.1, Progress { link: list.len() as int, ..p })
            }),
        decreases self.targets()[p.order[p.done] as int][p.output].len() - p.link,
    {
        let u = p.order[p.done];
        assert((p.order + queue)[p.done] == u);
        assert(self.output_listed(u as int, p.output));
        let list = self.targets()[u as int][p.output];
        if p.link < list.len() {
            self.lemma_sorting_release(deg, queue, p);
            lemma_relax_list_step(deg, queue, list, p.link);
            let next = crate::engine::order::relax_one(deg, queue, list[p.link]);
            self.lemma_relax_list_sound(next.0, next.1, Progress { link: p.link + 1, ..p });
        } else {
            assert(list.subrange(p.link, list.len() as int).len() == 0);
        }
    }

    /// Releasing the outputs of the node at work, from the output that is
    /// next, keeps the state of the elimination sound.
    proof fn lemma_relax_node_sound(&self, deg: Seq<int>, queue: Seq<NodeId>, p: Progress)
        requires
            self.slots_linked(),
            self.connections_symmetric(),
            self.sorting(deg, queue, p),
            p.done + 1 == p.order.len(),
            0 <= p.output <= self.nodes()[p.order[p.done] as int].outputs@.len(),
            p.link == 0,
        ensures
            ({
                let outs = self.targets()[p.order[p.done] as int];
                let r = relax_node(deg, queue, outs.subrange(p.output, outs.len() as int));
                self.sorting(r.0, r.1, Progress { output: outs.len() as int, link: 0, ..p })
            }),
        decreases self.nodes()[p.order[p.done] as int].outputs@.len() - p.output,
    {
        let u = p.order[p.done];
        assert((p.order + queue)[p.done] == u);
        let outs = self.targets()[u as int];
        if p.output < outs.len() {
            let list = outs[p.output];
            self.lemma_relax_list_sound(deg, queue, p);
            assert(list.subrange(0, list.len() as int) =~= list);
            let r = relax_list(deg, queue, list);
            assert(self.output_listed(u as int, p.output));
            self.lemma_sorting_next_output(r.0, r.1, Progress { link: list.len() as int, ..p });
            lemma_relax_node_step(deg, queue, outs, p.output);
            self.lemma_relax_node_sound(r.0, r.1, Progress { output: p.output + 1, link: 0, ..p });
        } else {
            assert(outs.subrange(p.output, outs.len() as int).len() == 0);
        }
    }

    /// Run from a sound state, the elimination ends with every node listed
    /// and a valid order, or short of that in a graph with a cycle.
    proof fn lemma_kahn_run_sound(&self, deg: Seq<int>, queue: Seq<NodeId>, order: Seq<NodeId>)
        requires
            self.slots_linked(),
            self.connections_symmetric(),
            self.sorting(
                deg,
                queue,
                Progress { order, done: order.len() as int, output: 0, link: 0 },
            ),
        ensures
            ({
                let n = self.nodes().len();
                let result = kahn_run(self.targets(), deg, queue, order, (n - order.len()) as nat);
                &&& result.len() <= n
                &&& result.len() == n ==> self.is_topological(result)
                &&& result.len() < n ==> self.has_cycle()
            }),
        decreases self.nodes().len() - order.len(),
    {
        let n = self.nodes().len();
        let p = Progress { order, done: order.len() as int, output: 0, link: 0 };
        lemma_distinct_bounded(order + queue, n);
        if queue.len() == 0 {
            assert(queue =~= Seq::<NodeId>::empty());
            if order.len() == n {
                self.lemma_sorting_complete(deg, queue, p);
            } else {
                self.lemma_stuck_has_cycle(deg, p);
            }
        } else {
            self.lemma_sorting_dequeue(deg, queue, p);
            let u = queue[0];
            let started = Progress { order: order.push(u), done: p.done, output: 0, link: 0 };
            let outs = self.targets()[u as int];
            self.lemma_relax_node_sound(deg, queue.drop_first(), started);
            assert(outs.subrange(0, outs.len() as int) =~= outs);
            let r = relax_node(deg, queue.drop_first(), outs);
            self.lemma_sorting_finish(
                r.0,
                r.1,
                Progress { output: outs.len() as int, link: 0, ..started },
            );
            self.lemma_kahn_run_sound(r.0, r.1, order.push(u));
        }
    }

    /// The execution order of a graph lists every node exactly when the
    /// graph has no cycle, and then it lists every producer before its
    /// consumers.
    pub proof fn law_sorted_order(&self)
        requires
            self.slots_linked(),
            self.connections_symmetric(),
        ensures
            self.sorted_order().len() <= self.nodes().len(),
            self.sorted_order().len() == self.nodes().len() <==> !self.has_cycle(),
            !self.has_cycle() ==> self.is_topological(self.sorted_order()),
    {
        self.lemma_counts_bounded();
        let deg = self.in_degrees();
        let n = self.nodes().len();
        let seeds = seeds_upto(deg, n as int);
        lemma_seeds_upto(deg, n as int);
        self.lemma_sorting_initial(seeds);
        self.lemma_kahn_run_sound(deg, seeds, Seq::empty());
        if self.sorted_order().len() == n {
            self.lemma_order_excludes_cycle(self.sorted_order());
        }
    }
}

} // verus!
