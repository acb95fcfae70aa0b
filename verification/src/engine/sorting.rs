//! Why the elimination is sound: what holds of its state at every step, and
//! what follows once every node has joined the order.

use vstd::prelude::*;
use crate::engine::graph::Graph;
use crate::engine::node::NodeId;
use crate::engine::order::{lemma_distinct_bounded, relax_one, Progress};
use crate::engine::output_pin::{first_index_of, lemma_first_index_of};

verus! {

impl Graph {
    /// The link into input slot `s` has been released: the feeding node has
    /// released everything, or it is the node at work and the link stands
    /// before the one that is released next.
    pub open spec fn released(&self, s: int, p: Progress) -> bool {
        self.fed(s) && {
            let out = self.outputs()[self.inputs()[s].connected_output.unwrap() as int];
            let u = out.properties.parent_id;
            ||| p.order.take(p.done).contains(u)
            ||| (p.done < p.order.len() && p.order[p.done] == u && (out.index < p.output || (out.index
                == p.output && first_index_of(out.connections@, s as usize) < p.link)))
        }
    }

    /// Input slot `s` is fed by a link that has not been released.
    pub open spec fn awaits(&self, s: int, p: Progress) -> bool {
        self.fed(s) && !self.released(s, p)
    }

    /// How many of the first `k` inputs of node `v` await their link.
    pub open spec fn pending(&self, v: int, k: int, p: Progress) -> int
        decreases k,
    {
        if k <= 0 {
            0
        } else {
            self.pending(v, k - 1, p) + if self.awaits(self.nodes()[v].inputs@[k - 1] as int, p) {
                1int
            } else {
                0int
            }
        }
    }

    /// The node that feeds the `k`-th input of the `q`-th node of `order`, if
    /// any, stands before position `q`.
    pub open spec fn source_placed(&self, order: Seq<NodeId>, q: int, k: int) -> bool {
        let s = self.nodes()[order[q] as int].inputs@[k] as int;
        self.fed(s) ==> order.take(q).contains(self.source_node(s))
    }

    /// What holds of the elimination at every step. No node is listed twice;
    /// a node is listed, in the order or in the queue, exactly when none of
    /// its inputs awaits a link; each count is the number of awaiting inputs;
    /// and every node of the order stands behind the nodes that feed it.
    pub open spec fn sorting(&self, deg: Seq<int>, queue: Seq<NodeId>, p: Progress) -> bool {
        let n = self.nodes().len();
        let listed = p.order + queue;
        &&& deg.len() == n
        &&& 0 <= p.done <= p.order.len() <= p.done + 1
        &&& 0 <= p.output
        &&& 0 <= p.link
        &&& listed.no_duplicates()
        &&& forall|i: int| 0 <= i < listed.len() ==> #[trigger] listed[i] < n
        &&& forall|v: NodeId| v < n ==> (#[trigger] listed.contains(v) <==> deg[v as int] == 0)
        &&& forall|v: int|
            0 <= v < n ==> #[trigger] deg[v] == self.pending(v, self.nodes()[v].inputs@.len() as int, p)
        &&& forall|q: int, k: int|
            0 <= q < p.order.len() && 0 <= k < self.nodes()[p.order[q] as int].inputs@.len()
                ==> #[trigger] self.source_placed(p.order, q, k)
    }

    // ----- counting -----

    /// A count of awaiting inputs lies between zero and the number of inputs
    /// counted.
    pub proof fn lemma_pending_range(&self, v: int, k: int, p: Progress)
        ensures
            0 <= self.pending(v, k, p),
            self.pending(v, k, p) <= if k < 0 {
                0
            } else {
                k
            },
        decreases k,
    {
        if k > 0 {
            self.lemma_pending_range(v, k - 1, p);
        }
    }

    /// Two states in which the same inputs await give the same count.
    pub proof fn lemma_pending_same(&self, v: int, k: int, was: Progress, next: Progress)
        requires
            forall|i: int|
                0 <= i < k ==> self.awaits(#[trigger] self.nodes()[v].inputs@[i] as int, was)
                    == self.awaits(self.nodes()[v].inputs@[i] as int, next),
        ensures
            self.pending(v, k, was) == self.pending(v, k, next),
        decreases k,
    {
        if k > 0 {
            self.lemma_pending_same(v, k - 1, was, next);
        }
    }

    /// When exactly one input stops awaiting, the count drops by one.
    pub proof fn lemma_pending_flip(&self, v: int, k: int, at: int, was: Progress, next: Progress)
        requires
            0 <= at < k,
            self.awaits(self.nodes()[v].inputs@[at] as int, was),
            !self.awaits(self.nodes()[v].inputs@[at] as int, next),
            forall|i: int|
                0 <= i < k && i != at ==> self.awaits(#[trigger] self.nodes()[v].inputs@[i] as int, was)
                    == self.awaits(self.nodes()[v].inputs@[i] as int, next),
        ensures
            self.pending(v, k, next) == self.pending(v, k, was) - 1,
        decreases k,
    {
        if at == k - 1 {
            self.lemma_pending_same(v, k - 1, was, next);
        } else {
            self.lemma_pending_flip(v, k - 1, at, was, next);
        }
    }

    /// A count of zero means that no input awaits.
    pub proof fn lemma_pending_zero(&self, v: int, k: int, p: Progress)
        requires
            self.pending(v, k, p) == 0,
        ensures
            forall|i: int| 0 <= i < k ==> !self.awaits(#[trigger] self.nodes()[v].inputs@[i] as int, p),
        decreases k,
    {
        if k > 0 {
            self.lemma_pending_range(v, k - 1, p);
            self.lemma_pending_zero(v, k - 1, p);
        }
    }

    /// Before anything is released, the awaiting inputs are the fed ones.
    pub proof fn lemma_pending_initial(&self, v: int, k: int)
        ensures
            self.pending(v, k, Progress { order: Seq::empty(), done: 0, output: 0, link: 0 })
                == self.fed_count(v, k),
        decreases k,
    {
        let p = Progress { order: Seq::empty(), done: 0, output: 0, link: 0 };
        if k > 0 {
            self.lemma_pending_initial(v, k - 1);
            let s = self.nodes()[v].inputs@[k - 1] as int;
            assert(p.order.take(0).len() == 0);
            assert(!self.released(s, p));
        }
    }

    // ----- which links a step releases -----

    /// Taking a node from the queue into the order releases nothing.
    proof fn lemma_released_start(&self, p: Progress, u: NodeId, s: int)
        requires
            p.done == p.order.len(),
            p.output == 0,
            p.link == 0,
        ensures
            self.released(s, p) == self.released(
                s,
                Progress { order: p.order.push(u), done: p.done, output: 0, link: 0 },
            ),
    {
        let next = Progress { order: p.order.push(u), done: p.done, output: 0, link: 0 };
        assert(next.order.take(next.done) =~= p.order.take(p.done));
        if self.fed(s) {
            let out = self.outputs()[self.inputs()[s].connected_output.unwrap() as int];
            lemma_first_index_of(out.connections@, s as usize);
        }
    }

    /// Releasing the next link of the node at work releases the input that the
    /// link feeds, and no other.
    proof fn lemma_released_link(&self, p: Progress, s: int)
        requires
            self.slots_linked(),
            self.connections_symmetric(),
            p.order.no_duplicates(),
            p.done + 1 == p.order.len(),
            0 <= p.done,
            p.order[p.done] < self.nodes().len(),
            0 <= p.output < self.nodes()[p.order[p.done] as int].outputs@.len(),
            0 <= p.link < self.outputs()[self.nodes()[p.order[p.done] as int].outputs@[p.output] as int].connections@.len(),
            0 <= s < self.inputs().len(),
        ensures
            ({
                let o = self.nodes()[p.order[p.done] as int].outputs@[p.output] as int;
                let c = self.outputs()[o].connections@[p.link] as int;
                let next = Progress { link: p.link + 1, ..p };
                &&& 0 <= c < self.inputs().len()
                &&& self.fed(c)
                &&& self.source_node(c) == p.order[p.done]
                &&& s == c ==> !self.released(s, p) && self.released(s, next)
                &&& s != c ==> self.released(s, p) == self.released(s, next)
            }),
    {
        self.lemma_counts_bounded();
        let u = p.order[p.done];
        let o = self.nodes()[u as int].outputs@[p.output] as int;
        let conns = self.outputs()[o].connections@;
        let c = conns[p.link] as int;
        let next = Progress { link: p.link + 1, ..p };
        assert(self.output_listed(u as int, p.output));
        assert(self.output_linked(o, p.link));
        assert(conns.no_duplicates());
        lemma_first_index_of(conns, c as usize);
        assert(first_index_of(conns, c as usize) == p.link);
        assert(!p.order.take(p.done).contains(u)) by {
            if p.order.take(p.done).contains(u) {
                let front = p.order.take(p.done);
                let i = choose|i: int| 0 <= i < front.len() && front[i] == u;
                assert(p.order[i] == p.order[p.done]);
            }
        }
        if s != c && self.fed(s) {
            let o2 = self.inputs()[s].connected_output.unwrap() as int;
            assert(self.input_linked(s));
            let out = self.outputs()[o2];
            assert(self.output_owned(o2));
            lemma_first_index_of(out.connections@, s as usize);
            if out.properties.parent_id == u && out.index == p.output {
                assert(o2 == o);
            }
        }
    }

    /// Moving on to the next output of the node at work, once every link of
    /// the current one is released, releases nothing.
    proof fn lemma_released_output(&self, p: Progress, s: int)
        requires
            self.slots_linked(),
            self.connections_symmetric(),
            p.done + 1 == p.order.len(),
            0 <= p.done,
            p.order[p.done] < self.nodes().len(),
            0 <= p.output < self.nodes()[p.order[p.done] as int].outputs@.len(),
            p.link == self.outputs()[self.nodes()[p.order[p.done] as int].outputs@[p.output] as int].connections@.len(),
            0 <= s < self.inputs().len(),
        ensures
            self.released(s, p) == self.released(s, Progress { output: p.output + 1, link: 0, ..p }),
    {
        self.lemma_counts_bounded();
        let u = p.order[p.done];
        let o = self.nodes()[u as int].outputs@[p.output] as int;
        assert(self.output_listed(u as int, p.output));
        if self.fed(s) {
            let o2 = self.inputs()[s].connected_output.unwrap() as int;
            assert(self.input_linked(s));
            let out = self.outputs()[o2];
            assert(self.output_owned(o2));
            lemma_first_index_of(out.connections@, s as usize);
            if out.properties.parent_id == u && out.index == p.output {
                assert(o2 == o);
            }
        }
    }

    /// A node that has gone through all its outputs has released everything.
    proof fn lemma_released_finish(&self, p: Progress, s: int)
        requires
            self.slots_linked(),
            self.connections_symmetric(),
            p.done + 1 == p.order.len(),
            0 <= p.done,
            p.order[p.done] < self.nodes().len(),
            p.output == self.nodes()[p.order[p.done] as int].outputs@.len(),
            0 <= s < self.inputs().len(),
        ensures
            self.released(s, p) == self.released(
                s,
                Progress { order: p.order, done: p.done + 1, output: 0, link: 0 },
            ),
    {
        let next = Progress { order: p.order, done: p.done + 1, output: 0, link: 0 };
        let u = p.order[p.done];
        assert(p.order.take(p.done + 1) =~= p.order.take(p.done).push(u));
        if self.fed(s) {
            let o2 = self.inputs()[s].connected_output.unwrap() as int;
            assert(self.input_linked(s));
            let out = self.outputs()[o2];
            assert(self.output_owned(o2));
            let w = out.properties.parent_id;
            let short = p.order.take(p.done);
            let long = p.order.take(p.done + 1);
            if short.contains(w) {
                let i = choose|i: int| 0 <= i < short.len() && short[i] == w;
                assert(long[i] == w);
            }
            if w == u {
                assert(long[p.done] == w);
            }
            if long.contains(w) {
                let i = choose|i: int| 0 <= i < long.len() && long[i] == w;
                if i < p.done {
                    assert(short[i] == w);
                }
            }
        }
    }

    // ----- the steps -----

    /// A step that releases nothing and lists nothing keeps the state sound.
    proof fn lemma_sorting_same(&self, deg: Seq<int>, queue: Seq<NodeId>, p: Progress, next: Progress)
        requires
            self.slots_linked(),
            self.sorting(deg, queue, p),
            next.order == p.order,
            0 <= next.done <= next.order.len() <= next.done + 1,
            0 <= next.output,
            0 <= next.link,
            forall|s: int|
                0 <= s < self.inputs().len() ==> #[trigger] self.released(s, p) == self.released(s, next),
        ensures
            self.sorting(deg, queue, next),
    {
        assert forall|v: int| 0 <= v < self.nodes().len() implies #[trigger] deg[v] == self.pending(
            v,
            self.nodes()[v].inputs@.len() as int,
            next,
        ) by {
            assert forall|i: int| 0 <= i < self.nodes()[v].inputs@.len() implies self.awaits(
                #[trigger] self.nodes()[v].inputs@[i] as int,
                p,
            ) == self.awaits(self.nodes()[v].inputs@[i] as int, next) by {
                assert(self.input_listed(v, i));
                let s = self.nodes()[v].inputs@[i] as int;
                assert(self.released(s, p) == self.released(s, next));
            }
            self.lemma_pending_same(v, self.nodes()[v].inputs@.len() as int, p, next);
        }
    }

    /// Taking the front of the queue into the order keeps the state sound; the
    /// node stands behind everything that feeds it, and the order is not yet
    /// full before it joins.
    pub proof fn lemma_sorting_dequeue(&self, deg: Seq<int>, queue: Seq<NodeId>, p: Progress)
        requires
            self.slots_linked(),
            self.connections_symmetric(),
            self.sorting(deg, queue, p),
            p.done == p.order.len(),
            p.output == 0,
            p.link == 0,
            queue.len() > 0,
        ensures
            queue[0] < self.nodes().len(),
            p.order.len() < self.nodes().len(),
            self.sorting(
                deg,
                queue.drop_first(),
                Progress { order: p.order.push(queue[0]), done: p.done, output: 0, link: 0 },
            ),
    {
        let n = self.nodes().len();
        let u = queue[0];
        let next = Progress { order: p.order.push(u), done: p.done, output: 0, link: 0 };
        let listed = p.order + queue;
        let listed2 = next.order + queue.drop_first();
        assert(listed2 =~= listed);
        assert(listed[p.order.len() as int] == u);
        assert(listed.contains(u));
        lemma_distinct_bounded(listed, n);
        assert forall|v: int| 0 <= v < n implies #[trigger] deg[v] == self.pending(
            v,
            self.nodes()[v].inputs@.len() as int,
            next,
        ) by {
            assert forall|i: int| 0 <= i < self.nodes()[v].inputs@.len() implies self.awaits(
                #[trigger] self.nodes()[v].inputs@[i] as int,
                p,
            ) == self.awaits(self.nodes()[v].inputs@[i] as int, next) by {
                self.lemma_released_start(p, u, self.nodes()[v].inputs@[i] as int);
            }
            self.lemma_pending_same(v, self.nodes()[v].inputs@.len() as int, p, next);
        }
        assert forall|q: int, k: int|
            0 <= q < next.order.len() && 0 <= k < self.nodes()[next.order[q] as int].inputs@.len() implies #[trigger] self.source_placed(
            next.order,
            q,
            k,
        ) by {
            if q < p.order.len() {
                assert(self.source_placed(p.order, q, k));
                assert(next.order.take(q) =~= p.order.take(q));
            } else {
                assert(deg[u as int] == self.pending(
                    u as int,
                    self.nodes()[u as int].inputs@.len() as int,
                    p,
                ));
                self.lemma_pending_zero(u as int, self.nodes()[u as int].inputs@.len() as int, p);
                let s = self.nodes()[u as int].inputs@[k] as int;
                assert(!self.awaits(s, p));
                assert(next.order.take(q) =~= p.order.take(p.done));
            }
        }
    }

    /// Releasing the next link of the node at work keeps the state sound: the
    /// fed node had a pending input, its count drops by one, and at zero it
    /// joins the queue.
    pub proof fn lemma_sorting_release(&self, deg: Seq<int>, queue: Seq<NodeId>, p: Progress)
        requires
            self.slots_linked(),
            self.connections_symmetric(),
            self.sorting(deg, queue, p),
            p.done + 1 == p.order.len(),
            0 <= p.output < self.nodes()[p.order[p.done] as int].outputs@.len(),
            0 <= p.link < self.outputs()[self.nodes()[p.order[p.done] as int].outputs@[p.output] as int].connections@.len(),
        ensures
            ({
                let o = self.nodes()[p.order[p.done] as int].outputs@[p.output] as int;
                let c = self.outputs()[o].connections@[p.link] as int;
                let v = self.inputs()[c].properties.parent_id;
                let r = relax_one(deg, queue, v);
                &&& o < self.outputs().len()
                &&& c < self.inputs().len()
                &&& v < self.nodes().len()
                &&& deg[v as int] >= 1
                &&& self.sorting(r.0, r.1, Progress { link: p.link + 1, ..p })
            }),
    {
        let n = self.nodes().len();
        let listed = p.order + queue;
        assert(listed[p.done] == p.order[p.done]);
        let u = p.order[p.done];
        assert(p.order.no_duplicates()) by {
            assert forall|a: int, b: int| 0 <= a < p.order.len() && 0 <= b < p.order.len() && a != b implies p.order[a]
                != p.order[b] by {
                assert(listed[a] == p.order[a]);
                assert(listed[b] == p.order[b]);
            }
        }
        let o = self.nodes()[u as int].outputs@[p.output] as int;
        assert(self.output_listed(u as int, p.output));
        let c = self.outputs()[o].connections@[p.link] as int;
        assert(self.output_linked(o, p.link));
        let v = self.inputs()[c].properties.parent_id;
        assert(self.input_owned(c));
        let at = self.inputs()[c].index as int;
        let next = Progress { link: p.link + 1, ..p };
        let r = relax_one(deg, queue, v);
        let len_v = self.nodes()[v as int].inputs@.len() as int;
        self.lemma_released_link(p, c);

        // the count of the fed node drops by one
        assert forall|i: int| 0 <= i < len_v && i != at implies self.awaits(
            #[trigger] self.nodes()[v as int].inputs@[i] as int,
            p,
        ) == self.awaits(self.nodes()[v as int].inputs@[i] as int, next) by {
            assert(self.input_listed(v as int, i));
            self.lemma_released_link(p, self.nodes()[v as int].inputs@[i] as int);
        }
        self.lemma_pending_flip(v as int, len_v, at, p, next);
        self.lemma_pending_range(v as int, len_v, next);
        assert(deg[v as int] == self.pending(v as int, len_v, p));
        assert(deg[v as int] >= 1);

        assert forall|w: int| 0 <= w < n implies #[trigger] r.0[w] == self.pending(
            w,
            self.nodes()[w].inputs@.len() as int,
            next,
        ) by {
            if w != v {
                assert forall|i: int| 0 <= i < self.nodes()[w].inputs@.len() implies self.awaits(
                    #[trigger] self.nodes()[w].inputs@[i] as int,
                    p,
                ) == self.awaits(self.nodes()[w].inputs@[i] as int, next) by {
                    assert(self.input_listed(w, i));
                    self.lemma_released_link(p, self.nodes()[w].inputs@[i] as int);
                }
                self.lemma_pending_same(w, self.nodes()[w].inputs@.len() as int, p, next);
                assert(deg[w] == self.pending(w, self.nodes()[w].inputs@.len() as int, p));
            }
        }

        // listing
        let listed2 = next.order + r.1;
        assert(!listed.contains(v));
        if deg[v as int] - 1 == 0 {
            assert(listed2 =~= listed.push(v));
            assert forall|a: int, b: int| 0 <= a < listed2.len() && 0 <= b < listed2.len() && a != b implies listed2[a]
                != listed2[b] by {
                if a < listed.len() {
                    assert(listed.contains(listed[a]));
                }
                if b < listed.len() {
                    assert(listed.contains(listed[b]));
                }
            }
            assert forall|w: NodeId| w < n implies (#[trigger] listed2.contains(w) <==> r.0[w as int]
                == 0) by {
                if listed2.contains(w) {
                    let i = choose|i: int| 0 <= i < listed2.len() && listed2[i] == w;
                    if i < listed.len() {
                        assert(listed[i] == w);
                        assert(listed.contains(w));
                    }
                }
                if r.0[w as int] == 0 {
                    if w == v {
                        assert(listed2[listed.len() as int] == w);
                    } else {
                        assert(listed.contains(w));
                        let i = choose|i: int| 0 <= i < listed.len() && listed[i] == w;
                        assert(listed2[i] == w);
                    }
                }
            }
        } else {
            assert(listed2 =~= listed);
            assert forall|w: NodeId| w < n implies (#[trigger] listed2.contains(w) <==> r.0[w as int]
                == 0) by {
                assert(listed.contains(w) <==> deg[w as int] == 0);
            }
        }
        assert forall|q: int, k: int|
            0 <= q < next.order.len() && 0 <= k < self.nodes()[next.order[q] as int].inputs@.len() implies #[trigger] self.source_placed(
            next.order,
            q,
            k,
        ) by {
            assert(self.source_placed(p.order, q, k));
        }
    }

    /// Moving on to the next output keeps the state sound.
    pub proof fn lemma_sorting_next_output(&self, deg: Seq<int>, queue: Seq<NodeId>, p: Progress)
        requires
            self.slots_linked(),
            self.connections_symmetric(),
            self.sorting(deg, queue, p),
            p.done + 1 == p.order.len(),
            0 <= p.output < self.nodes()[p.order[p.done] as int].outputs@.len(),
            p.link == self.outputs()[self.nodes()[p.order[p.done] as int].outputs@[p.output] as int].connections@.len(),
        ensures
            self.sorting(deg, queue, Progress { output: p.output + 1, link: 0, ..p }),
    {
        let next = Progress { output: p.output + 1, link: 0, ..p };
        assert((p.order + queue)[p.done] == p.order[p.done]);
        assert forall|s: int| 0 <= s < self.inputs().len() implies #[trigger] self.released(s, p)
            == self.released(s, next) by {
            self.lemma_released_output(p, s);
        }
        self.lemma_sorting_same(deg, queue, p, next);
    }

    /// Leaving a node that has gone through all its outputs keeps the state
    /// sound.
    pub proof fn lemma_sorting_finish(&self, deg: Seq<int>, queue: Seq<NodeId>, p: Progress)
        requires
            self.slots_linked(),
            self.connections_symmetric(),
            self.sorting(deg, queue, p),
            p.done + 1 == p.order.len(),
            p.output == self.nodes()[p.order[p.done] as int].outputs@.len(),
        ensures
            self.sorting(
                deg,
                queue,
                Progress { order: p.order, done: p.done + 1, output: 0, link: 0 },
            ),
    {
        let next = Progress { order: p.order, done: p.done + 1, output: 0, link: 0 };
        assert((p.order + queue)[p.done] == p.order[p.done]);
        assert forall|s: int| 0 <= s < self.inputs().len() implies #[trigger] self.released(s, p)
            == self.released(s, next) by {
            self.lemma_released_finish(p, s);
        }
        self.lemma_sorting_same(deg, queue, p, next);
    }

    /// The state before the first step is sound, the queue holding the nodes
    /// that nothing feeds.
    pub proof fn lemma_sorting_initial(&self, queue: Seq<NodeId>)
        requires
            queue.no_duplicates(),
            forall|i: int| 0 <= i < queue.len() ==> #[trigger] queue[i] < self.nodes().len(),
            forall|v: NodeId| #[trigger]
                queue.contains(v) <==> v < self.nodes().len() && self.in_degrees()[v as int] == 0,
        ensures
            self.sorting(
                self.in_degrees(),
                queue,
                Progress { order: Seq::empty(), done: 0, output: 0, link: 0 },
            ),
    {
        let p = Progress { order: Seq::empty(), done: 0, output: 0, link: 0 };
        assert(p.order + queue =~= queue);
        assert forall|v: int| 0 <= v < self.nodes().len() implies #[trigger] self.in_degrees()[v]
            == self.pending(v, self.nodes()[v].inputs@.len() as int, p) by {
            self.lemma_pending_initial(v, self.nodes()[v].inputs@.len() as int);
        }
    }

    /// Once every node has joined the order, the order lists every node once
    /// and every producer before its consumers.
    pub proof fn lemma_sorting_complete(&self, deg: Seq<int>, queue: Seq<NodeId>, p: Progress)
        requires
            self.slots_linked(),
            self.connections_symmetric(),
            self.sorting(deg, queue, p),
            p.order.len() == self.nodes().len(),
        ensures
            self.is_topological(p.order),
    {
        let order = p.order;
        let listed = order + queue;
        assert forall|a: int, b: int| 0 <= a < order.len() && 0 <= b < order.len() && a != b implies order[a]
            != order[b] by {
            assert(listed[a] == order[a]);
            assert(listed[b] == order[b]);
        }
        assert forall|a: int| 0 <= a < order.len() implies #[trigger] order[a] < self.nodes().len() by {
            assert(listed[a] == order[a]);
        }
        assert forall|s: int| 0 <= s < self.inputs().len() implies #[trigger] self.edge_ordered(
            order,
            s,
        ) by {
            if self.fed(s) {
                let o = self.inputs()[s].connected_output.unwrap();
                let a = self.outputs()[o as int].properties.parent_id;
                let b = self.inputs()[s].properties.parent_id;
                assert(self.input_owned(s));
                let k = self.inputs()[s].index as int;
                assert forall|i: int, j: int|
                    0 <= i < order.len() && 0 <= j < order.len() && #[trigger] order[i] == b
                        && #[trigger] order[j] == a implies j < i by {
                    assert(self.source_placed(order, i, k));
                    let front = order.take(i);
                    assert(front.contains(a));
                    let j2 = choose|j2: int| 0 <= j2 < front.len() && front[j2] == a;
                    assert(order[j2] == a);
                }
            }
        }
    }
}

} // verus!
