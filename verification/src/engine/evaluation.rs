//! What evaluation establishes: every node's outputs are what its kind
//! computes from the values its inputs present.

use vstd::prelude::*;
use crate::engine::graph::{is_permutation, Graph};
use crate::engine::node::NodeId;
use crate::engine::order::lemma_distinct_bounded;
use crate::types::data_type::DataValue;

verus! {

/// An order that lists each of the first `n` positions once lists them all.
pub proof fn lemma_permutation_covers(order: Seq<NodeId>, n: nat, v: NodeId)
    requires
        is_permutation(order, n),
        v < n,
    ensures
        order.contains(v),
{
    if !order.contains(v) {
        let longer = order.push(v);
        assert forall|a: int, b: int| 0 <= a < longer.len() && 0 <= b < longer.len() && a != b implies longer[a]
            != longer[b] by {
            if a < order.len() {
                assert(order.contains(order[a]));
            }
            if b < order.len() {
                assert(order.contains(order[b]));
            }
        }
        lemma_distinct_bounded(longer, n);
    }
}

impl Graph {
    /// The value that input slot `s` presents to its node: the value of the
    /// output that feeds it, or its local value if none does.
    pub open spec fn input_value(&self, s: int) -> DataValue {
        match self.inputs()[s].connected_output {
            Some(o) => self.outputs()[o as int].value,
            None => self.inputs()[s].value,
        }
    }

    /// The values that the inputs of node `v` present, in declared order.
    pub open spec fn node_inputs(&self, v: int) -> Seq<DataValue> {
        Seq::new(
            self.nodes()[v].inputs@.len(),
            |k: int| self.input_value(self.nodes()[v].inputs@[k] as int),
        )
    }

    /// The values that the outputs of node `v` hold, in declared order.
    pub open spec fn node_outputs(&self, v: int) -> Seq<DataValue> {
        Seq::new(
            self.nodes()[v].outputs@.len(),
            |k: int| self.outputs()[self.nodes()[v].outputs@[k] as int].value,
        )
    }

    /// The outputs of node `v` are what its kind computes from the values its
    /// inputs present.
    pub open spec fn node_settled(&self, v: int) -> bool {
        self.node_outputs(v) == self.nodes()[v].kind.transform(self.node_inputs(v))
    }

    /// Every node is settled: the values in the graph solve the dataflow
    /// equations.
    pub open spec fn settled(&self) -> bool {
        forall|v: int| 0 <= v < self.nodes().len() ==> #[trigger] self.node_settled(v)
    }

    /// In a well-formed graph the values that a node's inputs present have
    /// the kinds that the node's kind declares.
    pub proof fn lemma_node_inputs_accepted(&self, v: int)
        requires
            self.slots_linked(),
            self.connections_symmetric(),
            self.slots_typed(),
            self.nodes_shaped(),
            0 <= v < self.nodes().len(),
        ensures
            self.nodes()[v].kind.accepts(self.node_inputs(v)),
            self.nodes()[v].kind.yields(self.node_outputs(v)),
    {
        let kind = self.nodes()[v].kind;
        assert(self.node_shaped(v));
        assert forall|k: int| 0 <= k < self.node_inputs(v).len() implies (#[trigger] self.node_inputs(
            v,
        )[k]).kind_spec() == kind.input_kinds()[k] by {
            assert(self.input_listed(v, k));
            let s = self.nodes()[v].inputs@[k] as int;
            assert(self.input_typed(s));
            assert(self.input_linked(s));
            if let Some(o) = self.inputs()[s].connected_output {
                assert(self.output_typed(o as int));
            }
        }
        assert forall|k: int| 0 <= k < self.node_outputs(v).len() implies (#[trigger] self.node_outputs(
            v,
        )[k]).kind_spec() == kind.output_kinds()[k] by {
            assert(self.output_listed(v, k));
            let o = self.nodes()[v].outputs@[k] as int;
            assert(self.output_typed(o));
        }
    }

    /// Rewriting the outputs of the node at position `at` of a valid order
    /// changes nothing that this node or an earlier one reads.
    pub proof fn lemma_rewrite_keeps_inputs(&self, after: &Graph, order: Seq<NodeId>, at: int, p: int)
        requires
            self.slots_linked(),
            self.connections_symmetric(),
            self.is_topological(order),
            self.same_wiring(after),
            0 <= p <= at < order.len(),
            forall|o: int|
                0 <= o < self.outputs().len() && self.outputs()[o].properties.parent_id != order[at]
                    ==> (#[trigger] after.outputs()[o]).value == self.outputs()[o].value,
        ensures
            after.node_inputs(order[p] as int) == self.node_inputs(order[p] as int),
            p < at ==> after.node_outputs(order[p] as int) == self.node_outputs(order[p] as int),
    {
        let v = order[p] as int;
        let u = order[at];
        assert forall|k: int| 0 <= k < self.nodes()[v].inputs@.len() implies after.input_value(
            self.nodes()[v].inputs@[k] as int,
        ) == self.input_value(self.nodes()[v].inputs@[k] as int) by {
            assert(self.input_listed(v, k));
            let s = self.nodes()[v].inputs@[k] as int;
            assert(self.input_linked(s));
            assert(self.edge_ordered(order, s));
            if let Some(o) = self.inputs()[s].connected_output {
                if self.outputs()[o as int].properties.parent_id == u {
                    assert(order[at] == u && order[p] == v as usize);
                    assert(false);
                }
            }
        }
        assert(after.node_inputs(v) =~= self.node_inputs(v));
        if p < at {
            assert forall|k: int| 0 <= k < self.nodes()[v].outputs@.len() implies after.outputs()[self.nodes()[v].outputs@[k] as int].value
                == self.outputs()[self.nodes()[v].outputs@[k] as int].value by {
                assert(self.output_listed(v, k));
            }
            assert(after.node_outputs(v) =~= self.node_outputs(v));
        }
    }

    /// Two settled graphs with the same wiring agree on the outputs of the
    /// first `upto` nodes of a valid order.
    proof fn lemma_settled_agree(&self, other: &Graph, order: Seq<NodeId>, upto: int)
        requires
            self.slots_linked(),
            self.connections_symmetric(),
            self.same_wiring(other),
            self.is_topological(order),
            self.settled(),
            other.settled(),
            0 <= upto <= order.len(),
        ensures
            forall|q: int|
                0 <= q < upto ==> other.node_outputs(#[trigger] order[q] as int) == self.node_outputs(
                    order[q] as int,
                ),
        decreases upto,
    {
        if upto > 0 {
            self.lemma_settled_agree(other, order, upto - 1);
            let v = order[upto - 1] as int;
            assert(order[upto - 1] < self.nodes().len());
            assert forall|k: int| 0 <= k < self.nodes()[v].inputs@.len() implies other.input_value(
                self.nodes()[v].inputs@[k] as int,
            ) == self.input_value(self.nodes()[v].inputs@[k] as int) by {
                assert(self.input_listed(v, k));
                let s = self.nodes()[v].inputs@[k] as int;
                assert(self.input_linked(s));
                assert(self.edge_ordered(order, s));
                if let Some(o) = self.inputs()[s].connected_output {
                    assert(self.output_owned(o as int));
                    let u = self.outputs()[o as int].properties.parent_id;
                    lemma_permutation_covers(order, self.nodes().len(), u);
                    let q = choose|q: int| 0 <= q < order.len() && order[q] == u;
                    assert(order[upto - 1] == v as usize && order[q] == u);
                    assert(q < upto - 1);
                    let idx = self.outputs()[o as int].index as int;
                    assert(other.node_outputs(order[q] as int) == self.node_outputs(order[q] as int));
                    assert(self.node_outputs(u as int)[idx] == self.outputs()[o as int].value);
                    assert(other.node_outputs(u as int)[idx] == other.outputs()[o as int].value);
                }
            }
            assert(other.node_inputs(v) =~= self.node_inputs(v));
            assert(self.node_settled(v));
            assert(other.node_settled(v));
        }
    }

    /// What evaluation leaves in the outputs is determined by the wiring and
    /// by the local values of the inputs: two settled graphs that agree on
    /// those agree on every output.
    pub proof fn law_settled_values_are_determined(&self, other: &Graph, order: Seq<NodeId>)
        requires
            self.slots_linked(),
            self.connections_symmetric(),
            self.same_wiring(other),
            self.is_topological(order),
            self.settled(),
            other.settled(),
        ensures
            forall|o: int|
                0 <= o < self.outputs().len() ==> (#[trigger] other.outputs()[o]).value
                    == self.outputs()[o].value,
    {
        self.lemma_settled_agree(other, order, order.len() as int);
        assert forall|o: int| 0 <= o < self.outputs().len() implies (#[trigger] other.outputs()[o]).value
            == self.outputs()[o].value by {
            assert(self.output_owned(o));
            let u = self.outputs()[o].properties.parent_id;
            lemma_permutation_covers(order, self.nodes().len(), u);
            let q = choose|q: int| 0 <= q < order.len() && order[q] == u;
            let idx = self.outputs()[o].index as int;
            assert(other.node_outputs(order[q] as int) == self.node_outputs(order[q] as int));
            assert(self.node_outputs(u as int)[idx] == self.outputs()[o].value);
            assert(other.node_outputs(u as int)[idx] == other.outputs()[o].value);
        }
    }
}

} // verus!
