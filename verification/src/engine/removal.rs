//! Why removal keeps the graph whole: what each of its steps does to slots
//! and links, and what the ports of the remaining nodes look like afterwards.

use vstd::prelude::*;
use crate::engine::graph::Graph;
use crate::engine::input_field::InputField;
use crate::engine::lists::{
    lemma_filter_agree, lemma_filter_all, lemma_filter_entries, lemma_filter_map,
    lemma_filter_twice, lemma_remove_is_filter,
};
use crate::engine::ports::{cut_node, renumbered_node, PortRef};
use crate::engine::output_pin::{first_index_of, lemma_first_index_of};
use crate::engine::pin::PinProperties;

verus! {

/// Where the slot at `x` stands once the slot at `removed` has left and the
/// slot at `last` has taken its place.
pub open spec fn slot_after(x: int, removed: int, last: int) -> int {
    if x == last {
        removed
    } else {
        x
    }
}

/// Where the slot at `x` stands once the slots that `list` names have left a
/// storage of `len` slots, the last one listed leaving first, and each freed
/// place taken by the slot that then stood last.
pub open spec fn position_after(x: int, list: Seq<usize>, len: int) -> int
    decreases list.len(),
{
    if list.len() == 0 {
        x
    } else {
        let s = list.last() as int;
        let last = len - 1;
        position_after(
            slot_after(x, s, last),
            Seq::new((list.len() - 1) as nat, |k: int| slot_after(list[k] as int, s, last) as usize),
            last,
        )
    }
}

impl Graph {
    /// `after` is this graph with some links cut and nothing else touched:
    /// an input that is still fed is as it was, one that is not names no
    /// output, and every output lists, in their old order, the inputs that
    /// are still fed.
    pub open spec fn thinned(&self, after: &Graph) -> bool {
        &&& after.nodes() == self.nodes()
        &&& after.inputs().len() == self.inputs().len()
        &&& forall|s: int|
            0 <= s < self.inputs().len() ==> #[trigger] after.inputs()[s] == if after.fed(s) {
                self.inputs()[s]
            } else {
                InputField { connected_output: None, ..self.inputs()[s] }
            }
        &&& after.outputs().len() == self.outputs().len()
        &&& forall|o: int|
            0 <= o < self.outputs().len() ==> {
                &&& (#[trigger] after.outputs()[o]).properties == self.outputs()[o].properties
                &&& after.outputs()[o].index == self.outputs()[o].index
                &&& after.outputs()[o].value == self.outputs()[o].value
                &&& after.outputs()[o].connections@ == self.outputs()[o].connections@.filter(
                    |c: usize| after.fed(c as int),
                )
            }
    }

    /// A graph is itself with no link cut.
    pub proof fn lemma_thinned_start(&self)
        requires
            self.connections_symmetric(),
        ensures
            self.thinned(self),
    {
        assert forall|o: int| 0 <= o < self.outputs().len() implies (#[trigger] self.outputs()[o]).connections@
            == self.outputs()[o].connections@.filter(|c: usize| self.fed(c as int)) by {
            let list = self.outputs()[o].connections@;
            assert forall|t: int| 0 <= t < list.len() implies self.fed(#[trigger] list[t] as int) by {
                assert(self.output_linked(o, t));
            }
            lemma_filter_all(list, |c: usize| self.fed(c as int));
        }
    }

    /// Cutting one more link of a thinned graph gives a thinned graph.
    pub proof fn lemma_thinned_sever(&self, mid: &Graph, after: &Graph, s: usize)
        requires
            self.connections_symmetric(),
            self.thinned(mid),
            mid.connections_symmetric(),
            s < mid.inputs().len(),
            mid.fed(s as int),
            mid.severed(*after, s),
        ensures
            self.thinned(after),
            !after.fed(s as int),
            forall|x: int| 0 <= x < self.inputs().len() && x != s ==> after.fed(x) == mid.fed(x),
    {
        self.lemma_counts_bounded();
        assert(mid.input_linked(s as int));
        let cut = mid.inputs()[s as int].connected_output.unwrap() as int;
        assert forall|x: int| 0 <= x < self.inputs().len() implies #[trigger] after.inputs()[x]
            == if after.fed(x) {
            self.inputs()[x]
        } else {
            InputField { connected_output: None, ..self.inputs()[x] }
        } by {
            assert(mid.inputs()[x] == if mid.fed(x) {
                self.inputs()[x]
            } else {
                InputField { connected_output: None, ..self.inputs()[x] }
            });
        }
        assert forall|o: int| 0 <= o < self.outputs().len() implies {
            &&& (#[trigger] after.outputs()[o]).properties == self.outputs()[o].properties
            &&& after.outputs()[o].index == self.outputs()[o].index
            &&& after.outputs()[o].value == self.outputs()[o].value
            &&& after.outputs()[o].connections@ == self.outputs()[o].connections@.filter(
                |c: usize| after.fed(c as int),
            )
        } by {
            let list = self.outputs()[o].connections@;
            let was = |c: usize| mid.fed(c as int);
            let now = |c: usize| after.fed(c as int);
            assert(mid.outputs()[o].properties == self.outputs()[o].properties);
            assert(mid.outputs()[o].connections@ == list.filter(was));
            if o != cut {
                assert forall|t: int| 0 <= t < list.len() implies was(#[trigger] list[t]) == now(
                    list[t],
                ) by {
                    assert(self.output_linked(o, t));
                    if list[t] == s {
                        assert(mid.inputs()[s as int] == self.inputs()[s as int]);
                    }
                }
                lemma_filter_agree(list, was, now);
            } else {
                let kept = list.filter(was);
                assert(list.no_duplicates());
                lemma_filter_entries(list, was);
                lemma_first_index_of(kept, s);
                let at = first_index_of(kept, s);
                let other = |c: usize| c != s;
                assert(kept[at] == s);
                lemma_remove_is_filter(kept, at, other);
                assert forall|t: int| 0 <= t < list.len() implies now(#[trigger] list[t]) == (was(
                    list[t],
                ) && other(list[t])) by {
                    assert(self.output_linked(o, t));
                }
                lemma_filter_twice(list, was, other, now);
            }
        }
    }

    /// `after` is this graph without input slot `s`, the last input of node
    /// `owner`: the slot that stood last in storage stands at `s`, and every
    /// reference to it follows.
    pub open spec fn input_dropped(&self, after: &Graph, owner: int, s: int) -> bool {
        let last = self.inputs().len() - 1;
        &&& after.nodes().len() == self.nodes().len()
        &&& forall|v: int|
            0 <= v < self.nodes().len() ==> {
                let a = #[trigger] after.nodes()[v];
                let b = self.nodes()[v];
                &&& a.id == b.id
                &&& a.kind == b.kind
                &&& a.outputs@ == b.outputs@
                &&& a.inputs@.len() == b.inputs@.len() - if v == owner {
                    1int
                } else {
                    0int
                }
                &&& forall|k: int|
                    0 <= k < a.inputs@.len() ==> #[trigger] a.inputs@[k] == slot_after(
                        b.inputs@[k] as int,
                        s,
                        last,
                    )
            }
        &&& after.inputs().len() == last
        &&& forall|y: int|
            0 <= y < last ==> {
                let b = self.inputs()[if y == s {
                    last
                } else {
                    y
                }];
                #[trigger] after.inputs()[y] == InputField {
                    properties: PinProperties { id: y as usize, parent_id: b.properties.parent_id },
                    ..b
                }
            }
        &&& after.outputs().len() == self.outputs().len()
        &&& forall|o: int|
            0 <= o < self.outputs().len() ==> {
                let a = #[trigger] after.outputs()[o];
                let b = self.outputs()[o];
                &&& a.properties == b.properties
                &&& a.index == b.index
                &&& a.value == b.value
                &&& a.connections@.len() == b.connections@.len()
                &&& forall|t: int|
                    0 <= t < a.connections@.len() ==> #[trigger] a.connections@[t] == slot_after(
                        b.connections@[t] as int,
                        s,
                        last,
                    )
            }
    }

    /// Dropping an unfed input slot keeps the graph whole, and no other node
    /// can tell: its ports and links are as they were.
    pub proof fn lemma_input_dropped(&self, after: &Graph, owner: int, s: int)
        requires
            self.slots_linked(),
            self.connections_symmetric(),
            self.slots_typed(),
            0 <= owner < self.nodes().len(),
            self.nodes()[owner].inputs@.len() > 0,
            s == self.nodes()[owner].inputs@.last(),
            !self.fed(s),
            self.input_dropped(after, owner, s),
        ensures
            after.slots_linked(),
            after.connections_symmetric(),
            after.slots_typed(),
            forall|v: int|
                0 <= v < self.nodes().len() && v != owner && self.node_shaped(v) ==> #[trigger] after.node_shaped(
                    v,
                ),
            forall|v: int|
                0 <= v < self.nodes().len() && v != owner ==> #[trigger] after.node_view(v)
                    == self.node_view(v),
            forall|k: int|
                0 <= k < after.nodes()[owner].inputs@.len() ==> after.fed(
                    #[trigger] after.nodes()[owner].inputs@[k] as int,
                ) == self.fed(self.nodes()[owner].inputs@[k] as int),
    {
        self.lemma_counts_bounded();
        let last = self.inputs().len() - 1;
        let n = self.nodes().len();
        let tail = self.nodes()[owner].inputs@.len() - 1;
        assert(self.input_listed(owner, tail));
        // no list of a node names the dropped slot any more
        assert forall|v: int, k: int| 0 <= v < n && 0 <= k < after.nodes()[v].inputs@.len() implies {
            let x = self.nodes()[v].inputs@[k] as int;
            &&& x != s
            &&& 0 <= x <= last
            &&& #[trigger] after.nodes()[v].inputs@[k] == slot_after(x, s, last)
            &&& self.inputs()[x].properties.parent_id == v
            &&& self.inputs()[x].index == k
        } by {
            assert(self.input_listed(v, k));
        }
        // no output lists the dropped slot
        assert forall|o: int, t: int|
            0 <= o < self.outputs().len() && 0 <= t < self.outputs()[o].connections@.len() implies {
            let c = self.outputs()[o].connections@[t] as int;
            &&& c != s
            &&& 0 <= c <= last
            &&& #[trigger] after.outputs()[o].connections@[t] == slot_after(c, s, last)
            &&& self.inputs()[c].connected_output == Some(o as usize)
        } by {
            assert(self.output_linked(o, t));
        }

        assert forall|y: int| 0 <= y < after.inputs().len() implies #[trigger] after.input_owned(
            y,
        ) by {
            let x = if y == s {
                last
            } else {
                y
            };
            assert(self.input_owned(x));
            let p = self.inputs()[x].properties.parent_id as int;
            let idx = self.inputs()[x].index as int;
            assert(after.nodes()[p].inputs@[idx] == slot_after(
                self.nodes()[p].inputs@[idx] as int,
                s,
                last,
            ));
        }
        assert forall|v: int, k: int|
            0 <= v < after.nodes().len() && 0 <= k < after.nodes()[v].inputs@.len() implies #[trigger] after.input_listed(
            v,
            k,
        ) by {
            assert(self.input_listed(v, k));
            let x = self.nodes()[v].inputs@[k] as int;
            assert(after.nodes()[v].inputs@[k] == slot_after(x, s, last));
        }
        assert forall|o: int| 0 <= o < after.outputs().len() implies #[trigger] after.output_owned(
            o,
        ) by {
            assert(self.output_owned(o));
        }
        assert forall|v: int, k: int|
            0 <= v < after.nodes().len() && 0 <= k < after.nodes()[v].outputs@.len() implies #[trigger] after.output_listed(
            v,
            k,
        ) by {
            assert(self.output_listed(v, k));
        }
        assert forall|v: int| 0 <= v < after.nodes().len() implies (#[trigger] after.nodes()[v]).id
            == v by {
            assert(self.nodes()[v].id == v);
        }

        assert forall|y: int| 0 <= y < after.inputs().len() implies #[trigger] after.input_linked(
            y,
        ) by {
            let x = if y == s {
                last
            } else {
                y
            };
            assert(self.input_linked(x));
            if let Some(o) = self.inputs()[x].connected_output {
                let list = self.outputs()[o as int].connections@;
                let t = choose|t: int| 0 <= t < list.len() && list[t] == x as usize;
                assert(after.outputs()[o as int].connections@[t] == slot_after(list[t] as int, s, last));
            }
        }
        assert forall|o: int, t: int|
            0 <= o < after.outputs().len() && 0 <= t < after.outputs()[o].connections@.len() implies #[trigger] after.output_linked(
            o,
            t,
        ) by {
            let c = self.outputs()[o].connections@[t] as int;
            assert(after.outputs()[o].connections@[t] == slot_after(c, s, last));
        }
        assert forall|o: int| 0 <= o < after.outputs().len() implies (#[trigger] after.outputs()[o]).connections@.no_duplicates() by {
            let was = self.outputs()[o].connections@;
            let now = after.outputs()[o].connections@;
            assert(was.no_duplicates());
            assert forall|i: int, j: int| 0 <= i < now.len() && 0 <= j < now.len() && i != j implies now[i]
                != now[j] by {
                assert(now[i] == slot_after(was[i] as int, s, last));
                assert(now[j] == slot_after(was[j] as int, s, last));
            }
        }

        assert forall|y: int| 0 <= y < after.inputs().len() implies #[trigger] after.input_typed(
            y,
        ) by {
            let x = if y == s {
                last
            } else {
                y
            };
            assert(self.input_typed(x));
            assert(self.input_owned(x));
            assert(self.input_linked(x));
            let p = self.inputs()[x].properties.parent_id as int;
            assert(after.nodes()[p].kind == self.nodes()[p].kind);
            if let Some(o) = self.inputs()[x].connected_output {
                assert(self.output_owned(o as int));
                assert(after.outputs()[o as int].properties == self.outputs()[o as int].properties);
                let q = self.outputs()[o as int].properties.parent_id as int;
                assert(after.nodes()[q].kind == self.nodes()[q].kind);
            }
        }
        assert forall|o: int| 0 <= o < after.outputs().len() implies #[trigger] after.output_typed(
            o,
        ) by {
            assert(self.output_typed(o));
            assert(self.output_owned(o));
            let q = self.outputs()[o].properties.parent_id as int;
            assert(after.nodes()[q].kind == self.nodes()[q].kind);
        }

        assert forall|v: int| 0 <= v < n && v != owner implies #[trigger] after.node_view(v)
            == self.node_view(v) by {
            self.lemma_input_dropped_view(after, owner, s, v);
        }
        assert forall|k: int| 0 <= k < after.nodes()[owner].inputs@.len() implies after.fed(
            #[trigger] after.nodes()[owner].inputs@[k] as int,
        ) == self.fed(self.nodes()[owner].inputs@[k] as int) by {
            assert(self.input_listed(owner, k));
            let x = self.nodes()[owner].inputs@[k] as int;
            assert(after.nodes()[owner].inputs@[k] == slot_after(x, s, last));
        }
    }

    proof fn lemma_input_dropped_view(&self, after: &Graph, owner: int, s: int, v: int)
        requires
            self.slots_linked(),
            self.connections_symmetric(),
            0 <= owner < self.nodes().len(),
            self.nodes()[owner].inputs@.len() > 0,
            s == self.nodes()[owner].inputs@.last(),
            !self.fed(s),
            self.input_dropped(after, owner, s),
            0 <= v < self.nodes().len(),
            v != owner,
        ensures
            after.node_view(v) == self.node_view(v),
    {
        self.lemma_counts_bounded();
        let last = self.inputs().len() - 1;
        let tail = self.nodes()[owner].inputs@.len() - 1;
        assert(self.input_listed(owner, tail));
        let a = after.node_view(v);
        let b = self.node_view(v);
        assert(after.nodes()[v].kind == self.nodes()[v].kind);
        assert forall|k: int| 0 <= k < b.inputs.len() implies a.inputs[k] == b.inputs[k] by {
            assert(self.input_listed(v, k));
            let x = self.nodes()[v].inputs@[k] as int;
            assert(after.nodes()[v].inputs@[k] == slot_after(x, s, last));
            assert(self.input_linked(x));
            if let Some(o) = self.inputs()[x].connected_output {
                assert(after.outputs()[o as int].properties == self.outputs()[o as int].properties);
            }
        }
        assert(a.inputs =~= b.inputs);
        assert forall|k: int| 0 <= k < b.outputs.len() implies a.outputs[k] == b.outputs[k] by {
            assert(self.output_listed(v, k));
            let o = self.nodes()[v].outputs@[k] as int;
            let was = self.outputs()[o].connections@;
            let now = after.outputs()[o].connections@;
            assert(after.outputs()[o].value == self.outputs()[o].value);
            assert forall|t: int| 0 <= t < was.len() implies after.input_port(now[t] as int)
                == self.input_port(was[t] as int) by {
                assert(self.output_linked(o, t));
                assert(now[t] == slot_after(was[t] as int, s, last));
            }
            assert(a.outputs[k].targets =~= b.outputs[k].targets);
        }
        assert(a.outputs =~= b.outputs);
    }

    /// `after` is this graph without output slot `o`, the last output of node
    /// `owner`: the slot that stood last in storage stands at `o`, and every
    /// reference to it follows.
    pub open spec fn output_dropped(&self, after: &Graph, owner: int, o: int) -> bool {
        let last = self.outputs().len() - 1;
        &&& after.nodes().len() == self.nodes().len()
        &&& forall|v: int|
            0 <= v < self.nodes().len() ==> {
                let a = #[trigger] after.nodes()[v];
                let b = self.nodes()[v];
                &&& a.id == b.id
                &&& a.kind == b.kind
                &&& a.inputs@ == b.inputs@
                &&& a.outputs@.len() == b.outputs@.len() - if v == owner {
                    1int
                } else {
                    0int
                }
                &&& forall|k: int|
                    0 <= k < a.outputs@.len() ==> #[trigger] a.outputs@[k] == slot_after(
                        b.outputs@[k] as int,
                        o,
                        last,
                    )
            }
        &&& after.outputs().len() == last
        &&& forall|y: int|
            0 <= y < last ==> {
                let a = #[trigger] after.outputs()[y];
                let b = self.outputs()[if y == o {
                    last
                } else {
                    y
                }];
                &&& a.properties == (PinProperties { id: y as usize, parent_id: b.properties.parent_id })
                &&& a.index == b.index
                &&& a.value == b.value
                &&& a.connections@ == b.connections@
            }
        &&& after.inputs().len() == self.inputs().len()
        &&& forall|x: int|
            0 <= x < self.inputs().len() ==> #[trigger] after.inputs()[x] == InputField {
                connected_output: match self.inputs()[x].connected_output {
                    Some(p) => Some(slot_after(p as int, o, last) as usize),
                    None => None,
                },
                ..self.inputs()[x]
            }
    }

    /// Dropping an output slot that feeds nothing keeps the graph whole, and
    /// no other node can tell.
    pub proof fn lemma_output_dropped(&self, after: &Graph, owner: int, o: int)
        requires
            self.slots_linked(),
            self.connections_symmetric(),
            self.slots_typed(),
            0 <= owner < self.nodes().len(),
            self.nodes()[owner].outputs@.len() > 0,
            o == self.nodes()[owner].outputs@.last(),
            self.outputs()[o].connections@.len() == 0,
            self.output_dropped(after, owner, o),
        ensures
            after.slots_linked(),
            after.connections_symmetric(),
            after.slots_typed(),
            forall|v: int|
                0 <= v < self.nodes().len() && v != owner && self.node_shaped(v) ==> #[trigger] after.node_shaped(
                    v,
                ),
            forall|v: int|
                0 <= v < self.nodes().len() && v != owner ==> #[trigger] after.node_view(v)
                    == self.node_view(v),
            forall|x: int| 0 <= x < self.inputs().len() ==> #[trigger] after.fed(x) == self.fed(x),
            forall|k: int|
                0 <= k < after.nodes()[owner].outputs@.len() ==> after.outputs()[#[trigger] after.nodes()[owner].outputs@[k] as int].connections@
                    == self.outputs()[self.nodes()[owner].outputs@[k] as int].connections@,
    {
        self.lemma_counts_bounded();
        let last = self.outputs().len() - 1;
        let n = self.nodes().len();
        let tail = self.nodes()[owner].outputs@.len() - 1;
        assert(self.output_listed(owner, tail));
        assert forall|v: int, k: int| 0 <= v < n && 0 <= k < after.nodes()[v].outputs@.len() implies {
            let x = self.nodes()[v].outputs@[k] as int;
            &&& x != o
            &&& 0 <= x <= last
            &&& #[trigger] after.nodes()[v].outputs@[k] == slot_after(x, o, last)
            &&& self.outputs()[x].properties.parent_id == v
            &&& self.outputs()[x].index == k
        } by {
            assert(self.output_listed(v, k));
        }
        // no input names the dropped slot
        assert forall|x: int| 0 <= x < self.inputs().len() implies (
        #[trigger] self.inputs()[x].connected_output matches Some(p) ==> p != o && p <= last) by {
            assert(self.input_linked(x));
        }

        assert forall|x: int| 0 <= x < after.inputs().len() implies #[trigger] after.input_owned(
            x,
        ) by {
            assert(self.input_owned(x));
            let p = self.inputs()[x].properties.parent_id as int;
            assert(after.nodes()[p].inputs@ == self.nodes()[p].inputs@);
        }
        assert forall|v: int, k: int|
            0 <= v < after.nodes().len() && 0 <= k < after.nodes()[v].inputs@.len() implies #[trigger] after.input_listed(
            v,
            k,
        ) by {
            assert(self.input_listed(v, k));
        }
        assert forall|y: int| 0 <= y < after.outputs().len() implies #[trigger] after.output_owned(
            y,
        ) by {
            let x = if y == o {
                last
            } else {
                y
            };
            assert(self.output_owned(x));
            let p = self.outputs()[x].properties.parent_id as int;
            let idx = self.outputs()[x].index as int;
            assert(after.nodes()[p].outputs@[idx] == slot_after(
                self.nodes()[p].outputs@[idx] as int,
                o,
                last,
            ));
        }
        assert forall|v: int, k: int|
            0 <= v < after.nodes().len() && 0 <= k < after.nodes()[v].outputs@.len() implies #[trigger] after.output_listed(
            v,
            k,
        ) by {
            assert(self.output_listed(v, k));
            let x = self.nodes()[v].outputs@[k] as int;
            assert(after.nodes()[v].outputs@[k] == slot_after(x, o, last));
            let y = slot_after(x, o, last);
            assert(after.outputs()[y].index == self.outputs()[x].index);
        }
        assert forall|v: int| 0 <= v < after.nodes().len() implies (#[trigger] after.nodes()[v]).id
            == v by {
            assert(self.nodes()[v].id == v);
        }

        assert forall|x: int| 0 <= x < after.inputs().len() implies #[trigger] after.input_linked(
            x,
        ) by {
            assert(self.input_linked(x));
            if let Some(p) = self.inputs()[x].connected_output {
                let y = slot_after(p as int, o, last);
                assert(after.outputs()[y].connections@ == self.outputs()[p as int].connections@);
            }
        }
        assert forall|y: int, t: int|
            0 <= y < after.outputs().len() && 0 <= t < after.outputs()[y].connections@.len() implies #[trigger] after.output_linked(
            y,
            t,
        ) by {
            let x = if y == o {
                last
            } else {
                y
            };
            assert(self.output_linked(x, t));
        }
        assert forall|y: int| 0 <= y < after.outputs().len() implies (#[trigger] after.outputs()[y]).connections@.no_duplicates() by {
            let x = if y == o {
                last
            } else {
                y
            };
            assert(self.outputs()[x].connections@.no_duplicates());
        }

        assert forall|x: int| 0 <= x < after.inputs().len() implies #[trigger] after.input_typed(
            x,
        ) by {
            assert(self.input_typed(x));
            assert(self.input_owned(x));
            assert(self.input_linked(x));
            let p = self.inputs()[x].properties.parent_id as int;
            assert(after.nodes()[p].kind == self.nodes()[p].kind);
            if let Some(src) = self.inputs()[x].connected_output {
                assert(self.output_owned(src as int));
                let y = slot_after(src as int, o, last);
                assert(after.outputs()[y].index == self.outputs()[src as int].index);
                let q = self.outputs()[src as int].properties.parent_id as int;
                assert(after.nodes()[q].kind == self.nodes()[q].kind);
            }
        }
        assert forall|y: int| 0 <= y < after.outputs().len() implies #[trigger] after.output_typed(
            y,
        ) by {
            let x = if y == o {
                last
            } else {
                y
            };
            assert(self.output_typed(x));
            assert(self.output_owned(x));
            let q = self.outputs()[x].properties.parent_id as int;
            assert(after.nodes()[q].kind == self.nodes()[q].kind);
        }

        assert forall|v: int| 0 <= v < n && v != owner implies #[trigger] after.node_view(v)
            == self.node_view(v) by {
            let a = after.node_view(v);
            let b = self.node_view(v);
            assert(after.nodes()[v].kind == self.nodes()[v].kind);
            assert forall|k: int| 0 <= k < b.inputs.len() implies a.inputs[k] == b.inputs[k] by {
                assert(self.input_listed(v, k));
                let x = self.nodes()[v].inputs@[k] as int;
                assert(self.input_linked(x));
                if let Some(src) = self.inputs()[x].connected_output {
                    let y = slot_after(src as int, o, last);
                    assert(after.outputs()[y].index == self.outputs()[src as int].index);
                }
            }
            assert(a.inputs =~= b.inputs);
            assert forall|k: int| 0 <= k < b.outputs.len() implies a.outputs[k] == b.outputs[k] by {
                assert(self.output_listed(v, k));
                let x = self.nodes()[v].outputs@[k] as int;
                let y = slot_after(x, o, last);
                assert(after.nodes()[v].outputs@[k] == y);
                assert(after.outputs()[y].connections@ == self.outputs()[x].connections@);
                let list = self.outputs()[x].connections@;
                assert forall|t: int| 0 <= t < list.len() implies after.input_port(list[t] as int)
                    == self.input_port(list[t] as int) by {
                    assert(self.output_linked(x, t));
                }
                assert(a.outputs[k].targets =~= b.outputs[k].targets);
            }
            assert(a.outputs =~= b.outputs);
        }
        assert forall|k: int| 0 <= k < after.nodes()[owner].outputs@.len() implies after.outputs()[#[trigger] after.nodes()[owner].outputs@[k] as int].connections@
            == self.outputs()[self.nodes()[owner].outputs@[k] as int].connections@ by {
            assert(self.output_listed(owner, k));
            let x = self.nodes()[owner].outputs@[k] as int;
            let y = slot_after(x, o, last);
            assert(after.nodes()[owner].outputs@[k] == y);
            assert(after.outputs()[y].connections@ == self.outputs()[x].connections@);
        }
    }

    /// `after` is this graph without node `id`, which owns no slot: the node
    /// that stood last stands at `id`, and its slots name it there.
    pub open spec fn node_dropped(&self, after: &Graph, id: int) -> bool {
        let last = self.nodes().len() - 1;
        &&& after.nodes().len() == last
        &&& forall|y: int|
            0 <= y < last ==> {
                let a = #[trigger] after.nodes()[y];
                let b = self.nodes()[if y == id {
                    last
                } else {
                    y
                }];
                &&& a.id == y
                &&& a.kind == b.kind
                &&& a.inputs@ == b.inputs@
                &&& a.outputs@ == b.outputs@
            }
        &&& after.inputs().len() == self.inputs().len()
        &&& forall|x: int|
            0 <= x < self.inputs().len() ==> #[trigger] after.inputs()[x] == InputField {
                properties: PinProperties {
                    id: self.inputs()[x].properties.id,
                    parent_id: slot_after(self.inputs()[x].properties.parent_id as int, id, last) as usize,
                },
                ..self.inputs()[x]
            }
        &&& after.outputs().len() == self.outputs().len()
        &&& forall|o: int|
            0 <= o < self.outputs().len() ==> {
                let a = #[trigger] after.outputs()[o];
                let b = self.outputs()[o];
                &&& a.properties == (PinProperties {
                    id: b.properties.id,
                    parent_id: slot_after(b.properties.parent_id as int, id, last) as usize,
                })
                &&& a.index == b.index
                &&& a.value == b.value
                &&& a.connections@ == b.connections@
            }
    }

    /// Dropping a node that owns no slot keeps the graph whole; the remaining
    /// nodes keep their ports, and links to the node that moved name it at
    /// its new position.
    pub proof fn lemma_node_dropped(&self, after: &Graph, id: int)
        requires
            self.slots_linked(),
            self.connections_symmetric(),
            self.slots_typed(),
            0 <= id < self.nodes().len(),
            self.nodes()[id].inputs@.len() == 0,
            self.nodes()[id].outputs@.len() == 0,
            forall|v: int| 0 <= v < self.nodes().len() && v != id ==> #[trigger] self.node_shaped(v),
            self.node_dropped(after, id),
        ensures
            after.slots_linked(),
            after.connections_symmetric(),
            after.slots_typed(),
            after.nodes_shaped(),
            forall|y: int|
                0 <= y < after.nodes().len() ==> #[trigger] after.node_view(y) == renumbered_node(
                    self.node_view(
                        if y == id {
                            self.nodes().len() - 1
                        } else {
                            y
                        },
                    ),
                    self.nodes().len() - 1,
                    id,
                ),
    {
        self.lemma_counts_bounded();
        let last = self.nodes().len() - 1;
        // no slot belongs to the dropped node
        assert forall|x: int| 0 <= x < self.inputs().len() implies (#[trigger] self.inputs()[x]).properties.parent_id
            != id by {
            assert(self.input_owned(x));
        }
        assert forall|o: int| 0 <= o < self.outputs().len() implies (#[trigger] self.outputs()[o]).properties.parent_id
            != id by {
            assert(self.output_owned(o));
        }
        assert forall|x: int| 0 <= x < after.inputs().len() implies #[trigger] after.input_owned(
            x,
        ) by {
            assert(self.input_owned(x));
            let p = self.inputs()[x].properties.parent_id as int;
            let y = slot_after(p, id, last);
            assert(after.nodes()[y].inputs@ == self.nodes()[p].inputs@);
        }
        assert forall|y: int, k: int|
            0 <= y < after.nodes().len() && 0 <= k < after.nodes()[y].inputs@.len() implies #[trigger] after.input_listed(
            y,
            k,
        ) by {
            let v = if y == id {
                last
            } else {
                y
            };
            assert(self.input_listed(v, k));
        }
        assert forall|o: int| 0 <= o < after.outputs().len() implies #[trigger] after.output_owned(
            o,
        ) by {
            assert(self.output_owned(o));
            let p = self.outputs()[o].properties.parent_id as int;
            let y = slot_after(p, id, last);
            assert(after.nodes()[y].outputs@ == self.nodes()[p].outputs@);
        }
        assert forall|y: int, k: int|
            0 <= y < after.nodes().len() && 0 <= k < after.nodes()[y].outputs@.len() implies #[trigger] after.output_listed(
            y,
            k,
        ) by {
            let v = if y == id {
                last
            } else {
                y
            };
            assert(self.output_listed(v, k));
            let o = self.nodes()[v].outputs@[k] as int;
            assert(after.outputs()[o].index == self.outputs()[o].index);
        }

        assert forall|x: int| 0 <= x < after.inputs().len() implies #[trigger] after.input_linked(
            x,
        ) by {
            assert(self.input_linked(x));
            if let Some(o) = self.inputs()[x].connected_output {
                assert(after.outputs()[o as int].connections@ == self.outputs()[o as int].connections@);
            }
        }
        assert forall|o: int, t: int|
            0 <= o < after.outputs().len() && 0 <= t < after.outputs()[o].connections@.len() implies #[trigger] after.output_linked(
            o,
            t,
        ) by {
            assert(self.output_linked(o, t));
        }
        assert forall|o: int| 0 <= o < after.outputs().len() implies (#[trigger] after.outputs()[o]).connections@.no_duplicates() by {
            assert(self.outputs()[o].connections@.no_duplicates());
        }

        assert forall|x: int| 0 <= x < after.inputs().len() implies #[trigger] after.input_typed(
            x,
        ) by {
            assert(self.input_typed(x));
            assert(self.input_owned(x));
            assert(self.input_linked(x));
            let p = self.inputs()[x].properties.parent_id as int;
            let y = slot_after(p, id, last);
            assert(after.nodes()[y].kind == self.nodes()[p].kind);
            if let Some(o) = self.inputs()[x].connected_output {
                assert(self.output_owned(o as int));
                assert(after.outputs()[o as int].index == self.outputs()[o as int].index);
                let q = self.outputs()[o as int].properties.parent_id as int;
                let z = slot_after(q, id, last);
                assert(after.nodes()[z].kind == self.nodes()[q].kind);
            }
        }
        assert forall|o: int| 0 <= o < after.outputs().len() implies #[trigger] after.output_typed(
            o,
        ) by {
            assert(self.output_typed(o));
            assert(self.output_owned(o));
            let q = self.outputs()[o].properties.parent_id as int;
            let z = slot_after(q, id, last);
            assert(after.nodes()[z].kind == self.nodes()[q].kind);
        }
        assert forall|y: int| 0 <= y < after.nodes().len() implies #[trigger] after.node_shaped(
            y,
        ) by {
            let v = if y == id {
                last
            } else {
                y
            };
            assert(self.node_shaped(v));
        }

        assert forall|y: int| 0 <= y < after.nodes().len() implies #[trigger] after.node_view(y)
            == renumbered_node(
            self.node_view(
                if y == id {
                    self.nodes().len() - 1
                } else {
                    y
                },
            ),
            self.nodes().len() - 1,
            id,
        ) by {
            let v = if y == id {
                last
            } else {
                y
            };
            let a = after.node_view(y);
            let b = renumbered_node(self.node_view(v), last, id);
            assert forall|k: int| 0 <= k < b.inputs.len() implies a.inputs[k] == b.inputs[k] by {
                assert(self.input_listed(v, k));
                let x = self.nodes()[v].inputs@[k] as int;
                assert(self.input_linked(x));
                if let Some(o) = self.inputs()[x].connected_output {
                    assert(after.outputs()[o as int].index == self.outputs()[o as int].index);
                    assert(self.output_owned(o as int));
                }
            }
            assert(a.inputs =~= b.inputs);
            assert forall|k: int| 0 <= k < b.outputs.len() implies a.outputs[k] == b.outputs[k] by {
                assert(self.output_listed(v, k));
                let o = self.nodes()[v].outputs@[k] as int;
                assert(after.outputs()[o].connections@ == self.outputs()[o].connections@);
                let list = self.outputs()[o].connections@;
                assert forall|t: int| 0 <= t < list.len() implies after.input_port(list[t] as int)
                    == crate::engine::ports::moved_port(self.input_port(list[t] as int), last, id) by {
                    assert(self.output_linked(o, t));
                    assert(self.input_owned(list[t] as int));
                }
                assert(a.outputs[k].targets =~= b.outputs[k].targets);
            }
            assert(a.outputs =~= b.outputs);
        }
    }

    /// The ports of every other node, once node `id` is detached, are the old
    /// ones with the links from and to `id` dropped.
    pub proof fn lemma_detached_view(&self, after: &Graph, id: int, v: int)
        requires
            self.slots_linked(),
            self.connections_symmetric(),
            self.thinned(after),
            0 <= id < self.nodes().len(),
            0 <= v < self.nodes().len(),
            v != id,
            forall|s: int|
                0 <= s < self.inputs().len() ==> (#[trigger] after.fed(s) <==> self.fed(s)
                    && self.inputs()[s].properties.parent_id != id && self.source_node(s) != id),
        ensures
            after.node_view(v) == cut_node(self.node_view(v), id),
    {
        self.lemma_counts_bounded();
        let a = after.node_view(v);
        let b = cut_node(self.node_view(v), id);
        assert forall|k: int| 0 <= k < b.inputs.len() implies a.inputs[k] == b.inputs[k] by {
            assert(self.input_listed(v, k));
            let x = self.nodes()[v].inputs@[k] as int;
            assert(self.input_linked(x));
            assert(after.fed(x) <==> self.fed(x) && self.inputs()[x].properties.parent_id != id
                && self.source_node(x) != id);
            assert(after.inputs()[x] == if after.fed(x) {
                self.inputs()[x]
            } else {
                InputField { connected_output: None, ..self.inputs()[x] }
            });
            if let Some(o) = self.inputs()[x].connected_output {
                assert(after.outputs()[o as int].properties == self.outputs()[o as int].properties);
            }
        }
        assert(a.inputs =~= b.inputs);
        assert forall|k: int| 0 <= k < b.outputs.len() implies a.outputs[k] == b.outputs[k] by {
            assert(self.output_listed(v, k));
            let o = self.nodes()[v].outputs@[k] as int;
            let list = self.outputs()[o].connections@;
            let still = |c: usize| after.fed(c as int);
            let port = |c: usize| self.input_port(c as int);
            let stays = |r: PortRef| r.node != id;
            assert(after.outputs()[o].connections@ == list.filter(still));
            assert forall|t: int| 0 <= t < list.len() implies still(#[trigger] list[t]) == stays(
                port(list[t]),
            ) by {
                assert(self.output_linked(o, t));
                let c = list[t] as int;
                assert(after.fed(c) <==> self.fed(c) && self.inputs()[c].properties.parent_id != id
                    && self.source_node(c) != id);
            }
            lemma_filter_map(list, still, port, stays);
            lemma_filter_entries(list, still);
            let kept = list.filter(still);
            assert(self.node_view(v).outputs[k].targets =~= list.map_values(port));
            assert forall|t: int| 0 <= t < kept.len() implies after.input_port(kept[t] as int)
                == port(kept[t]) by {
                assert(list.contains(kept[t]));
                let i = choose|i: int| 0 <= i < list.len() && list[i] == kept[t];
                assert(self.output_linked(o, i));
                let c = kept[t] as int;
                assert(after.inputs()[c] == if after.fed(c) {
                    self.inputs()[c]
                } else {
                    InputField { connected_output: None, ..self.inputs()[c] }
                });
            }
            assert(a.outputs[k].targets =~= kept.map_values(port));
            assert(after.outputs()[o].value == self.outputs()[o].value);
        }
        assert(a.outputs =~= b.outputs);
    }

    /// `now` holds every node of this graph but `id`, and every slot of those
    /// nodes, unchanged but for where the slots stand: `in_map` and `out_map`
    /// give the place of each input and output slot.
    pub open spec fn relocated(&self, now: &Graph, id: int, in_map: Seq<int>, out_map: Seq<int>) -> bool {
        &&& in_map.len() == self.inputs().len()
        &&& out_map.len() == self.outputs().len()
        &&& now.nodes().len() == self.nodes().len()
        &&& forall|v: int|
            0 <= v < self.nodes().len() && v != id ==> {
                let a = #[trigger] now.nodes()[v];
                let b = self.nodes()[v];
                &&& a.id == b.id
                &&& a.kind == b.kind
                &&& a.inputs@.len() == b.inputs@.len()
                &&& a.outputs@.len() == b.outputs@.len()
                &&& forall|k: int|
                    0 <= k < b.inputs@.len() ==> #[trigger] a.inputs@[k] == in_map[b.inputs@[k] as int]
                &&& forall|k: int|
                    0 <= k < b.outputs@.len() ==> #[trigger] a.outputs@[k] == out_map[b.outputs@[k] as int]
            }
        &&& forall|x: int|
            0 <= x < self.inputs().len() && self.inputs()[x].properties.parent_id != id ==> {
                let y = #[trigger] in_map[x];
                let b = self.inputs()[x];
                &&& 0 <= y < now.inputs().len()
                &&& now.inputs()[y].properties.id == y
                &&& now.inputs()[y].properties.parent_id == b.properties.parent_id
                &&& now.inputs()[y].index == b.index
                &&& now.inputs()[y].value == b.value
                &&& match b.connected_output {
                    Some(o) => now.inputs()[y].connected_output matches Some(z) && z == out_map[o as int],
                    None => now.inputs()[y].connected_output.is_none(),
                }
            }
        &&& forall|o: int|
            0 <= o < self.outputs().len() && self.outputs()[o].properties.parent_id != id ==> {
                let z = #[trigger] out_map[o];
                let b = self.outputs()[o];
                &&& 0 <= z < now.outputs().len()
                &&& now.outputs()[z].properties.id == z
                &&& now.outputs()[z].properties.parent_id == b.properties.parent_id
                &&& now.outputs()[z].index == b.index
                &&& now.outputs()[z].value == b.value
                &&& now.outputs()[z].connections@.len() == b.connections@.len()
                &&& forall|t: int|
                    0 <= t < b.connections@.len() ==> #[trigger] now.outputs()[z].connections@[t]
                        == in_map[b.connections@[t] as int]
            }
    }

    /// Every slot of a graph stands where it stands.
    pub proof fn lemma_relocated_start(&self, id: int)
        requires
            self.slots_linked(),
            self.connections_symmetric(),
        ensures
            self.relocated(
                self,
                id,
                Seq::new(self.inputs().len(), |x: int| x),
                Seq::new(self.outputs().len(), |o: int| o),
            ),
    {
        let in_map = Seq::new(self.inputs().len(), |x: int| x);
        let out_map = Seq::new(self.outputs().len(), |o: int| o);
        assert forall|v: int| 0 <= v < self.nodes().len() && v != id implies {
            let a = #[trigger] self.nodes()[v];
            &&& forall|k: int|
                0 <= k < a.inputs@.len() ==> #[trigger] a.inputs@[k] == in_map[a.inputs@[k] as int]
            &&& forall|k: int|
                0 <= k < a.outputs@.len() ==> #[trigger] a.outputs@[k] == out_map[a.outputs@[k] as int]
        } by {
            let a = self.nodes()[v];
            assert forall|k: int| 0 <= k < a.inputs@.len() implies #[trigger] a.inputs@[k]
                == in_map[a.inputs@[k] as int] by {
                assert(self.input_listed(v, k));
            }
            assert forall|k: int| 0 <= k < a.outputs@.len() implies #[trigger] a.outputs@[k]
                == out_map[a.outputs@[k] as int] by {
                assert(self.output_listed(v, k));
            }
        }
        assert forall|x: int|
            0 <= x < self.inputs().len() && self.inputs()[x].properties.parent_id != id implies {
            let y = #[trigger] in_map[x];
            &&& self.inputs()[y].properties.id == y
            &&& match self.inputs()[x].connected_output {
                Some(o) => self.inputs()[y].connected_output matches Some(z) && z == out_map[o as int],
                None => self.inputs()[y].connected_output.is_none(),
            }
        } by {
            assert(self.input_owned(x));
            assert(self.input_linked(x));
        }
        assert forall|o: int|
            0 <= o < self.outputs().len() && self.outputs()[o].properties.parent_id != id implies {
            let z = #[trigger] out_map[o];
            &&& self.outputs()[z].properties.id == z
            &&& forall|t: int|
                0 <= t < self.outputs()[o].connections@.len() ==> #[trigger] self.outputs()[z].connections@[t]
                    == in_map[self.outputs()[o].connections@[t] as int]
        } by {
            assert(self.output_owned(o));
            assert forall|t: int| 0 <= t < self.outputs()[o].connections@.len() implies #[trigger] self.outputs()[o].connections@[t]
                == in_map[self.outputs()[o].connections@[t] as int] by {
                assert(self.output_linked(o, t));
            }
        }
    }

    /// Dropping the last input slot of node `id` moves, of the slots of other
    /// nodes, only the one that stood last in storage.
    pub proof fn lemma_relocated_input(
        &self,
        mid: &Graph,
        after: &Graph,
        id: int,
        in_map: Seq<int>,
        out_map: Seq<int>,
    )
        requires
            self.slots_linked(),
            self.connections_symmetric(),
            self.relocated(mid, id, in_map, out_map),
            mid.slots_linked(),
            0 <= id < mid.nodes().len(),
            mid.nodes()[id].inputs@.len() > 0,
            mid.input_dropped(after, id, mid.nodes()[id].inputs@.last() as int),
        ensures
            self.relocated(
                after,
                id,
                Seq::new(
                    in_map.len(),
                    |x: int|
                        slot_after(
                            in_map[x],
                            mid.nodes()[id].inputs@.last() as int,
                            mid.inputs().len() - 1,
                        ),
                ),
                out_map,
            ),
            forall|x: int|
                0 <= x < self.inputs().len() && self.inputs()[x].properties.parent_id != id
                    ==> position_after(#[trigger] in_map[x], mid.nodes()[id].inputs@, mid.inputs().len() as int)
                    == position_after(
                    slot_after(in_map[x], mid.nodes()[id].inputs@.last() as int, mid.inputs().len() - 1),
                    after.nodes()[id].inputs@,
                    after.inputs().len() as int,
                ),
    {
        mid.lemma_counts_bounded();
        let s = mid.nodes()[id].inputs@.last() as int;
        let last = mid.inputs().len() - 1;
        let list = mid.nodes()[id].inputs@;
        let in_map2 = Seq::new(in_map.len(), |x: int| slot_after(in_map[x], s, last));
        assert(mid.input_listed(id, list.len() - 1));
        assert(after.nodes()[id].inputs@ =~= Seq::new(
            (list.len() - 1) as nat,
            |k: int| slot_after(list[k] as int, s, last) as usize,
        )) by {
            assert(after.nodes()[id].inputs@.len() == list.len() - 1);
            assert forall|k: int| 0 <= k < list.len() - 1 implies after.nodes()[id].inputs@[k]
                == slot_after(list[k] as int, s, last) as usize by {
                assert(after.nodes()[id].inputs@[k] == slot_after(list[k] as int, s, last));
            }
        }
        assert forall|x: int|
            0 <= x < self.inputs().len() && self.inputs()[x].properties.parent_id != id implies {
            let y = #[trigger] in_map2[x];
            let b = self.inputs()[x];
            &&& 0 <= y < after.inputs().len()
            &&& after.inputs()[y].properties.id == y
            &&& after.inputs()[y].properties.parent_id == b.properties.parent_id
            &&& after.inputs()[y].index == b.index
            &&& after.inputs()[y].value == b.value
            &&& match b.connected_output {
                Some(o) => after.inputs()[y].connected_output matches Some(z) && z == out_map[o as int],
                None => after.inputs()[y].connected_output.is_none(),
            }
        } by {
            let y0 = in_map[x];
            assert(mid.inputs()[y0].properties.parent_id != id);
            assert(y0 != s);
        }
        assert forall|v: int| 0 <= v < self.nodes().len() && v != id implies {
            let a = #[trigger] after.nodes()[v];
            let b = self.nodes()[v];
            &&& a.id == b.id
            &&& a.kind == b.kind
            &&& a.inputs@.len() == b.inputs@.len()
            &&& a.outputs@.len() == b.outputs@.len()
            &&& forall|k: int|
                0 <= k < b.inputs@.len() ==> #[trigger] a.inputs@[k] == in_map2[b.inputs@[k] as int]
            &&& forall|k: int|
                0 <= k < b.outputs@.len() ==> #[trigger] a.outputs@[k] == out_map[b.outputs@[k] as int]
        } by {
            let a = after.nodes()[v];
            let m = mid.nodes()[v];
            let b = self.nodes()[v];
            assert forall|k: int| 0 <= k < b.inputs@.len() implies #[trigger] a.inputs@[k]
                == in_map2[b.inputs@[k] as int] by {
                assert(self.input_listed(v, k));
                assert(m.inputs@[k] == in_map[b.inputs@[k] as int]);
                assert(a.inputs@[k] == slot_after(m.inputs@[k] as int, s, last));
            }
            assert forall|k: int| 0 <= k < b.outputs@.len() implies #[trigger] a.outputs@[k]
                == out_map[b.outputs@[k] as int] by {
                assert(m.outputs@[k] == out_map[b.outputs@[k] as int]);
            }
        }
        assert forall|o: int|
            0 <= o < self.outputs().len() && self.outputs()[o].properties.parent_id != id implies {
            let z = #[trigger] out_map[o];
            let b = self.outputs()[o];
            &&& 0 <= z < after.outputs().len()
            &&& after.outputs()[z].properties.id == z
            &&& after.outputs()[z].properties.parent_id == b.properties.parent_id
            &&& after.outputs()[z].index == b.index
            &&& after.outputs()[z].value == b.value
            &&& after.outputs()[z].connections@.len() == b.connections@.len()
            &&& forall|t: int|
                0 <= t < b.connections@.len() ==> #[trigger] after.outputs()[z].connections@[t]
                    == in_map2[b.connections@[t] as int]
        } by {
            let z = out_map[o];
            let b = self.outputs()[o];
            assert(after.outputs()[z].properties == mid.outputs()[z].properties);
            assert forall|t: int| 0 <= t < b.connections@.len() implies #[trigger] after.outputs()[z].connections@[t]
                == in_map2[b.connections@[t] as int] by {
                assert(self.output_linked(o, t));
                assert(mid.outputs()[z].connections@[t] == in_map[b.connections@[t] as int]);
                assert(after.outputs()[z].connections@[t] == slot_after(
                    mid.outputs()[z].connections@[t] as int,
                    s,
                    last,
                ));
            }
        }
    }

    /// Dropping the last output slot of node `id` moves, of the slots of other
    /// nodes, only the one that stood last in storage.
    pub proof fn lemma_relocated_output(
        &self,
        mid: &Graph,
        after: &Graph,
        id: int,
        in_map: Seq<int>,
        out_map: Seq<int>,
    )
        requires
            self.slots_linked(),
            self.connections_symmetric(),
            self.relocated(mid, id, in_map, out_map),
            mid.slots_linked(),
            0 <= id < mid.nodes().len(),
            mid.nodes()[id].outputs@.len() > 0,
            mid.output_dropped(after, id, mid.nodes()[id].outputs@.last() as int),
        ensures
            self.relocated(
                after,
                id,
                in_map,
                Seq::new(
                    out_map.len(),
                    |o: int|
                        slot_after(
                            out_map[o],
                            mid.nodes()[id].outputs@.last() as int,
                            mid.outputs().len() - 1,
                        ),
                ),
            ),
            forall|o: int|
                0 <= o < self.outputs().len() && self.outputs()[o].properties.parent_id != id
                    ==> position_after(
                    #[trigger] out_map[o],
                    mid.nodes()[id].outputs@,
                    mid.outputs().len() as int,
                ) == position_after(
                    slot_after(out_map[o], mid.nodes()[id].outputs@.last() as int, mid.outputs().len() - 1),
                    after.nodes()[id].outputs@,
                    after.outputs().len() as int,
                ),
    {
        mid.lemma_counts_bounded();
        let s = mid.nodes()[id].outputs@.last() as int;
        let last = mid.outputs().len() - 1;
        let list = mid.nodes()[id].outputs@;
        let out_map2 = Seq::new(out_map.len(), |o: int| slot_after(out_map[o], s, last));
        assert(mid.output_listed(id, list.len() - 1));
        assert(after.nodes()[id].outputs@ =~= Seq::new(
            (list.len() - 1) as nat,
            |k: int| slot_after(list[k] as int, s, last) as usize,
        )) by {
            assert(after.nodes()[id].outputs@.len() == list.len() - 1);
            assert forall|k: int| 0 <= k < list.len() - 1 implies after.nodes()[id].outputs@[k]
                == slot_after(list[k] as int, s, last) as usize by {
                assert(after.nodes()[id].outputs@[k] == slot_after(list[k] as int, s, last));
            }
        }
        assert forall|o: int|
            0 <= o < self.outputs().len() && self.outputs()[o].properties.parent_id != id implies {
            let z = #[trigger] out_map2[o];
            let b = self.outputs()[o];
            &&& 0 <= z < after.outputs().len()
            &&& after.outputs()[z].properties.id == z
            &&& after.outputs()[z].properties.parent_id == b.properties.parent_id
            &&& after.outputs()[z].index == b.index
            &&& after.outputs()[z].value == b.value
            &&& after.outputs()[z].connections@.len() == b.connections@.len()
            &&& forall|t: int|
                0 <= t < b.connections@.len() ==> #[trigger] after.outputs()[z].connections@[t]
                    == in_map[b.connections@[t] as int]
        } by {
            let z0 = out_map[o];
            assert(mid.outputs()[z0].properties.parent_id != id);
            assert(z0 != s);
            let z = out_map2[o];
            assert(after.outputs()[z].connections@ == mid.outputs()[z0].connections@);
        }
        assert forall|v: int| 0 <= v < self.nodes().len() && v != id implies {
            let a = #[trigger] after.nodes()[v];
            let b = self.nodes()[v];
            &&& a.id == b.id
            &&& a.kind == b.kind
            &&& a.inputs@.len() == b.inputs@.len()
            &&& a.outputs@.len() == b.outputs@.len()
            &&& forall|k: int|
                0 <= k < b.inputs@.len() ==> #[trigger] a.inputs@[k] == in_map[b.inputs@[k] as int]
            &&& forall|k: int|
                0 <= k < b.outputs@.len() ==> #[trigger] a.outputs@[k] == out_map2[b.outputs@[k] as int]
        } by {
            let a = after.nodes()[v];
            let m = mid.nodes()[v];
            let b = self.nodes()[v];
            assert forall|k: int| 0 <= k < b.outputs@.len() implies #[trigger] a.outputs@[k]
                == out_map2[b.outputs@[k] as int] by {
                assert(self.output_listed(v, k));
                assert(m.outputs@[k] == out_map[b.outputs@[k] as int]);
                assert(a.outputs@[k] == slot_after(m.outputs@[k] as int, s, last));
            }
            assert forall|k: int| 0 <= k < b.inputs@.len() implies #[trigger] a.inputs@[k]
                == in_map[b.inputs@[k] as int] by {
                assert(m.inputs@[k] == in_map[b.inputs@[k] as int]);
            }
        }
        assert forall|x: int|
            0 <= x < self.inputs().len() && self.inputs()[x].properties.parent_id != id implies {
            let y = #[trigger] in_map[x];
            let b = self.inputs()[x];
            &&& 0 <= y < after.inputs().len()
            &&& after.inputs()[y].properties.id == y
            &&& after.inputs()[y].properties.parent_id == b.properties.parent_id
            &&& after.inputs()[y].index == b.index
            &&& after.inputs()[y].value == b.value
            &&& match b.connected_output {
                Some(o) => after.inputs()[y].connected_output matches Some(z) && z == out_map2[o as int],
                None => after.inputs()[y].connected_output.is_none(),
            }
        } by {
            let y = in_map[x];
            assert(self.input_linked(x));
            assert(self.input_owned(x));
        }
    }

    /// Where input slot `x` stands once node `id` has been removed.
    pub open spec fn input_place(&self, id: int, x: int) -> int {
        position_after(x, self.nodes()[id].inputs@, self.inputs().len() as int)
    }

    /// Where output slot `o` stands once node `id` has been removed.
    pub open spec fn output_place(&self, id: int, o: int) -> int {
        position_after(o, self.nodes()[id].outputs@, self.outputs().len() as int)
    }

    /// Where node `v` stands once node `id` has been removed.
    pub open spec fn node_place(&self, id: int, v: int) -> int {
        slot_after(v, id, self.nodes().len() - 1)
    }

    /// The inputs that output slot `o` still feeds once node `id` has been
    /// removed, by their old positions and in their old order.
    pub open spec fn kept_connections(&self, id: int, o: int) -> Seq<usize> {
        self.outputs()[o].connections@.filter(
            |c: usize| self.inputs()[c as int].properties.parent_id != id,
        )
    }

    /// `after` is this graph with node `id` removed, slot by slot: every
    /// other node and every slot of another node is in `after`, at the place
    /// that the moves of removal give it, with its kind, its value and its
    /// links; links from and to the removed node are gone, and every
    /// reference names nodes and slots at their new places.
    pub open spec fn removed(&self, after: &Graph, id: int) -> bool {
        &&& after.nodes().len() == self.nodes().len() - 1
        &&& forall|v: int|
            0 <= v < self.nodes().len() && v != id ==> {
                let y = #[trigger] self.node_place(id, v);
                let b = self.nodes()[v];
                &&& 0 <= y < after.nodes().len()
                &&& after.nodes()[y].id == y
                &&& after.nodes()[y].kind == b.kind
                &&& after.nodes()[y].inputs@.len() == b.inputs@.len()
                &&& after.nodes()[y].outputs@.len() == b.outputs@.len()
                &&& forall|k: int|
                    0 <= k < b.inputs@.len() ==> #[trigger] after.nodes()[y].inputs@[k]
                        == self.input_place(id, b.inputs@[k] as int)
                &&& forall|k: int|
                    0 <= k < b.outputs@.len() ==> #[trigger] after.nodes()[y].outputs@[k]
                        == self.output_place(id, b.outputs@[k] as int)
            }
        &&& forall|x: int|
            0 <= x < self.inputs().len() && self.inputs()[x].properties.parent_id != id ==> {
                let y = #[trigger] self.input_place(id, x);
                let b = self.inputs()[x];
                &&& 0 <= y < after.inputs().len()
                &&& after.inputs()[y].properties.id == y
                &&& after.inputs()[y].properties.parent_id == self.node_place(
                    id,
                    b.properties.parent_id as int,
                )
                &&& after.inputs()[y].index == b.index
                &&& after.inputs()[y].value == b.value
                &&& match b.connected_output {
                    Some(o) => if self.outputs()[o as int].properties.parent_id == id {
                        after.inputs()[y].connected_output.is_none()
                    } else {
                        after.inputs()[y].connected_output matches Some(z) && z == self.output_place(
                            id,
                            o as int,
                        )
                    },
                    None => after.inputs()[y].connected_output.is_none(),
                }
            }
        &&& forall|o: int|
            0 <= o < self.outputs().len() && self.outputs()[o].properties.parent_id != id ==> {
                let z = #[trigger] self.output_place(id, o);
                let b = self.outputs()[o];
                let kept = self.kept_connections(id, o);
                &&& 0 <= z < after.outputs().len()
                &&& after.outputs()[z].properties.id == z
                &&& after.outputs()[z].properties.parent_id == self.node_place(
                    id,
                    b.properties.parent_id as int,
                )
                &&& after.outputs()[z].index == b.index
                &&& after.outputs()[z].value == b.value
                &&& after.outputs()[z].connections@.len() == kept.len()
                &&& forall|t: int|
                    0 <= t < kept.len() ==> #[trigger] after.outputs()[z].connections@[t]
                        == self.input_place(id, kept[t] as int)
            }
    }

    /// Detaching a node, dropping its slots one by one and dropping the node
    /// amount to removing it.
    pub proof fn lemma_removed(
        &self,
        detached: &Graph,
        bare: &Graph,
        after: &Graph,
        id: int,
        in_map: Seq<int>,
        out_map: Seq<int>,
    )
        requires
            self.slots_linked(),
            self.connections_symmetric(),
            0 <= id < self.nodes().len(),
            self.thinned(detached),
            forall|s: int|
                0 <= s < self.inputs().len() ==> (#[trigger] detached.fed(s) <==> self.fed(s)
                    && self.inputs()[s].properties.parent_id != id && self.source_node(s) != id),
            detached.slots_linked(),
            detached.connections_symmetric(),
            detached.relocated(bare, id, in_map, out_map),
            forall|x: int|
                0 <= x < self.inputs().len() && self.inputs()[x].properties.parent_id != id
                    ==> #[trigger] in_map[x] == self.input_place(id, x),
            forall|o: int|
                0 <= o < self.outputs().len() && self.outputs()[o].properties.parent_id != id
                    ==> #[trigger] out_map[o] == self.output_place(id, o),
            bare.nodes()[id].inputs@.len() == 0,
            bare.nodes()[id].outputs@.len() == 0,
            bare.node_dropped(after, id),
        ensures
            self.removed(after, id),
    {
        self.lemma_counts_bounded();
        let last = self.nodes().len() - 1;
        assert forall|v: int| 0 <= v < self.nodes().len() && v != id implies {
            let y = #[trigger] self.node_place(id, v);
            let b = self.nodes()[v];
            &&& 0 <= y < after.nodes().len()
            &&& after.nodes()[y].id == y
            &&& after.nodes()[y].kind == b.kind
            &&& after.nodes()[y].inputs@.len() == b.inputs@.len()
            &&& after.nodes()[y].outputs@.len() == b.outputs@.len()
            &&& forall|k: int|
                0 <= k < b.inputs@.len() ==> #[trigger] after.nodes()[y].inputs@[k]
                    == self.input_place(id, b.inputs@[k] as int)
            &&& forall|k: int|
                0 <= k < b.outputs@.len() ==> #[trigger] after.nodes()[y].outputs@[k]
                    == self.output_place(id, b.outputs@[k] as int)
        } by {
            let y = self.node_place(id, v);
            let b = self.nodes()[v];
            let m = bare.nodes()[v];
            assert(m.kind == b.kind);
            assert(after.nodes()[y].inputs@ == m.inputs@);
            assert forall|k: int| 0 <= k < b.inputs@.len() implies #[trigger] after.nodes()[y].inputs@[k]
                == self.input_place(id, b.inputs@[k] as int) by {
                assert(self.input_listed(v, k));
                assert(m.inputs@[k] == in_map[b.inputs@[k] as int]);
            }
            assert forall|k: int| 0 <= k < b.outputs@.len() implies #[trigger] after.nodes()[y].outputs@[k]
                == self.output_place(id, b.outputs@[k] as int) by {
                assert(self.output_listed(v, k));
                assert(m.outputs@[k] == out_map[b.outputs@[k] as int]);
            }
        }
        assert forall|x: int|
            0 <= x < self.inputs().len() && self.inputs()[x].properties.parent_id != id implies {
            let y = #[trigger] self.input_place(id, x);
            let b = self.inputs()[x];
            &&& 0 <= y < after.inputs().len()
            &&& after.inputs()[y].properties.id == y
            &&& after.inputs()[y].properties.parent_id == self.node_place(
                id,
                b.properties.parent_id as int,
            )
            &&& after.inputs()[y].index == b.index
            &&& after.inputs()[y].value == b.value
            &&& match b.connected_output {
                Some(o) => if self.outputs()[o as int].properties.parent_id == id {
                    after.inputs()[y].connected_output.is_none()
                } else {
                    after.inputs()[y].connected_output matches Some(z) && z == self.output_place(
                        id,
                        o as int,
                    )
                },
                None => after.inputs()[y].connected_output.is_none(),
            }
        } by {
            let y = in_map[x];
            assert(y == self.input_place(id, x));
            assert(detached.inputs()[x] == if detached.fed(x) {
                self.inputs()[x]
            } else {
                InputField { connected_output: None, ..self.inputs()[x] }
            });
            assert(self.input_linked(x));
            assert(self.input_owned(x));
            if let Some(o) = self.inputs()[x].connected_output {
                assert(detached.outputs()[o as int].properties == self.outputs()[o as int].properties);
                if self.outputs()[o as int].properties.parent_id != id {
                    assert(out_map[o as int] == self.output_place(id, o as int));
                }
            }
        }
        assert forall|o: int|
            0 <= o < self.outputs().len() && self.outputs()[o].properties.parent_id != id implies {
            let z = #[trigger] self.output_place(id, o);
            let b = self.outputs()[o];
            let kept = self.kept_connections(id, o);
            &&& 0 <= z < after.outputs().len()
            &&& after.outputs()[z].properties.id == z
            &&& after.outputs()[z].properties.parent_id == self.node_place(
                id,
                b.properties.parent_id as int,
            )
            &&& after.outputs()[z].index == b.index
            &&& after.outputs()[z].value == b.value
            &&& after.outputs()[z].connections@.len() == kept.len()
            &&& forall|t: int|
                0 <= t < kept.len() ==> #[trigger] after.outputs()[z].connections@[t]
                    == self.input_place(id, kept[t] as int)
        } by {
            let z = out_map[o];
            assert(z == self.output_place(id, o));
            assert(detached.outputs()[o].properties == self.outputs()[o].properties);
            assert(self.output_owned(o));
            let list = self.outputs()[o].connections@;
            let still = |c: usize| detached.fed(c as int);
            let stays = |c: usize| self.inputs()[c as int].properties.parent_id != id;
            assert(detached.outputs()[o].connections@ == list.filter(still));
            assert forall|t: int| 0 <= t < list.len() implies still(#[trigger] list[t]) == stays(
                list[t],
            ) by {
                assert(self.output_linked(o, t));
                let c = list[t] as int;
                assert(detached.fed(c) <==> self.fed(c) && self.inputs()[c].properties.parent_id != id
                    && self.source_node(c) != id);
            }
            lemma_filter_agree(list, still, stays);
            let kept = self.kept_connections(id, o);
            assert(kept == detached.outputs()[o].connections@);
            assert forall|t: int| 0 <= t < kept.len() implies #[trigger] after.outputs()[z].connections@[t]
                == self.input_place(id, kept[t] as int) by {
                assert(detached.output_linked(o, t));
                let c = kept[t] as int;
                assert(bare.outputs()[z].connections@[t] == in_map[c]);
                assert(detached.inputs()[c] == if detached.fed(c) {
                    self.inputs()[c]
                } else {
                    InputField { connected_output: None, ..self.inputs()[c] }
                });
                assert(detached.input_owned(c));
                assert(detached.inputs()[c].properties.parent_id != id) by {
                    assert(detached.fed(c) <==> self.fed(c) && self.inputs()[c].properties.parent_id
                        != id && self.source_node(c) != id);
                }
                assert(in_map[c] == self.input_place(id, c));
            }
        }
    }
}

} // verus!
