//! What holds of every well-formed graph, whatever calls produced it. Every
//! operation of the graph keeps the graph well formed, so each of these holds
//! after any sequence of operations.

use vstd::prelude::*;
use crate::engine::cycles::position;
use crate::engine::graph::{Graph, GraphError};
use crate::engine::input_field::InputId;
use crate::engine::node::NodeId;
use crate::engine::output_pin::OutputId;

verus! {

impl Graph {
    /// While the cached order is not stale, the node
    /// that feeds an input stands in the order before the node that owns the
    /// input.
    pub proof fn law_order_respects_links(&self, s: InputId)
        requires
            self.wf(),
            !self.dirty(),
            s < self.inputs().len(),
            self.fed(s as int),
        ensures
            self.order().contains(self.source_node(s as int)),
            self.order().contains(self.inputs()[s as int].properties.parent_id),
            position(self.order(), self.source_node(s as int)) < position(
                self.order(),
                self.inputs()[s as int].properties.parent_id,
            ),
    {
        let a = self.source_node(s as int);
        let b = self.inputs()[s as int].properties.parent_id;
        assert(self.feeds(a, b));
        self.lemma_feeder_stands_before(self.order(), a, b);
    }

    /// The cached order, while it is not stale, lists every node exactly once.
    pub proof fn law_order_lists_every_node_once(&self, v: NodeId)
        requires
            self.wf(),
            !self.dirty(),
            v < self.nodes().len(),
        ensures
            self.order().len() == self.nodes().len(),
            self.order().no_duplicates(),
            self.order().contains(v),
    {
        crate::engine::evaluation::lemma_permutation_covers(self.order(), self.nodes().len(), v);
    }

    /// A graph with a cycle has no valid order: its cached
    /// order is stale, and no list of its nodes puts every producer before
    /// its consumers.
    pub proof fn law_cycle_has_no_order(&self, order: Seq<NodeId>)
        requires
            self.wf(),
            self.has_cycle(),
        ensures
            self.dirty(),
            !self.is_topological(order),
    {
        if !self.dirty() {
            self.lemma_order_excludes_cycle(self.order());
        }
        if self.is_topological(order) {
            self.lemma_order_excludes_cycle(order);
        }
    }

    /// An input names an output exactly when the output
    /// lists the input, and an output lists no input twice.
    pub proof fn law_connection_symmetry(&self, s: InputId, o: OutputId)
        requires
            self.wf(),
            s < self.inputs().len(),
            o < self.outputs().len(),
        ensures
            self.inputs()[s as int].connected_output == Some(o) <==> self.outputs()[o as int].connections@.contains(
                s,
            ),
            self.outputs()[o as int].connections@.no_duplicates(),
    {
        assert(self.input_linked(s as int));
        let list = self.outputs()[o as int].connections@;
        if list.contains(s) {
            let t = choose|t: int| 0 <= t < list.len() && list[t] == s;
            assert(self.output_linked(o as int, t));
        }
    }

    /// No input names an output that does not exist, and no output lists an
    /// input that does not exist.
    pub proof fn law_no_orphaned_links(&self)
        requires
            self.wf(),
        ensures
            forall|s: int|
                0 <= s < self.inputs().len() ==> (
                #[trigger] self.inputs()[s].connected_output matches Some(o) ==> o
                    < self.outputs().len()),
            forall|o: int, t: int|
                0 <= o < self.outputs().len() && 0 <= t < self.outputs()[o].connections@.len()
                    ==> #[trigger] self.outputs()[o].connections@[t] < self.inputs().len(),
    {
        assert forall|s: int| 0 <= s < self.inputs().len() implies (
        #[trigger] self.inputs()[s].connected_output matches Some(o) ==> o < self.outputs().len()) by {
            assert(self.input_linked(s));
        }
        assert forall|o: int, t: int|
            0 <= o < self.outputs().len() && 0 <= t < self.outputs()[o].connections@.len() implies #[trigger] self.outputs()[o].connections@[t]
            < self.inputs().len() by {
            assert(self.output_linked(o, t));
        }
    }

    /// The node that an input slot names as
    /// its owner exists and lists the slot's current position, at the place
    /// the slot says; and the slot knows its own position.
    pub proof fn law_input_owner_lists_it(&self, s: InputId)
        requires
            self.wf(),
            s < self.inputs().len(),
        ensures
            self.inputs()[s as int].properties.id == s,
            self.inputs()[s as int].properties.parent_id < self.nodes().len(),
            self.nodes()[self.inputs()[s as int].properties.parent_id as int].inputs@.contains(s),
            self.nodes()[self.inputs()[s as int].properties.parent_id as int].inputs@[self.inputs()[s as int].index as int]
                == s,
    {
        assert(self.input_owned(s as int));
    }

    /// The node that an output slot names as its owner exists and lists the
    /// slot's current position, at the place the slot says; and the slot knows
    /// its own position.
    pub proof fn law_output_owner_lists_it(&self, o: OutputId)
        requires
            self.wf(),
            o < self.outputs().len(),
        ensures
            self.outputs()[o as int].properties.id == o,
            self.outputs()[o as int].properties.parent_id < self.nodes().len(),
            self.nodes()[self.outputs()[o as int].properties.parent_id as int].outputs@.contains(o),
            self.nodes()[self.outputs()[o as int].properties.parent_id as int].outputs@[self.outputs()[o as int].index as int]
                == o,
    {
        assert(self.output_owned(o as int));
    }

    /// Every slot that a node lists
    /// exists and names the node as its owner; a node lists no slot twice, and
    /// no two nodes list the same slot.
    pub proof fn law_listed_slots_name_their_node(&self, n: NodeId, k: int, m: NodeId, j: int)
        requires
            self.wf(),
            n < self.nodes().len(),
            m < self.nodes().len(),
            0 <= k < self.nodes()[n as int].inputs@.len(),
            0 <= j < self.nodes()[m as int].inputs@.len(),
        ensures
            self.nodes()[n as int].id == n,
            self.nodes()[n as int].inputs@[k] < self.inputs().len(),
            self.inputs()[self.nodes()[n as int].inputs@[k] as int].properties.parent_id == n,
            self.nodes()[n as int].inputs@[k] == self.nodes()[m as int].inputs@[j] ==> n == m && k
                == j,
    {
        assert(self.input_listed(n as int, k));
        assert(self.input_listed(m as int, j));
    }

    /// An input that is fed cannot be fed again: a
    /// link from an output of its kind is refused as already connected.
    pub proof fn law_fed_input_refuses_link(&self, from: OutputId, to: InputId)
        requires
            self.wf(),
            from < self.outputs().len(),
            to < self.inputs().len(),
            self.output_kind(from as int) == self.input_kind(to as int),
            self.fed(to as int),
        ensures
            self.connect_refusal(from, to) == Some(GraphError::AlreadyConnected),
    {
    }

    /// An input that is not fed cannot be cut off.
    pub proof fn law_unfed_input_refuses_cut(&self, input_id: InputId)
        requires
            self.wf(),
            input_id < self.inputs().len(),
            !self.fed(input_id as int),
        ensures
            self.disconnect_refusal(input_id) == Some(GraphError::NotConnected),
    {
    }

    /// Two slots that are linked have the same declared kind, and each holds
    /// a value of that kind: nothing is ever converted on the way.
    pub proof fn law_links_join_equal_kinds(&self, s: InputId)
        requires
            self.wf(),
            s < self.inputs().len(),
            self.fed(s as int),
        ensures
            self.output_kind(self.inputs()[s as int].connected_output.unwrap() as int)
                == self.input_kind(s as int),
            self.outputs()[self.inputs()[s as int].connected_output.unwrap() as int].value.kind_spec()
                == self.input_kind(s as int),
            self.inputs()[s as int].value.kind_spec() == self.input_kind(s as int),
    {
        assert(self.input_typed(s as int));
        assert(self.input_linked(s as int));
        assert(self.output_typed(self.inputs()[s as int].connected_output.unwrap() as int));
    }

    /// In a settled graph the output of every node repeats what the node's
    /// input presents: the value of the output that feeds the input, or the
    /// input's local value if none does. Both kinds of node forward their
    /// single input.
    pub proof fn law_settled_node_repeats_its_input(&self, v: NodeId)
        requires
            self.wf(),
            self.settled(),
            v < self.nodes().len(),
        ensures
            self.nodes()[v as int].inputs@.len() == 1,
            self.nodes()[v as int].outputs@.len() == 1,
            self.outputs()[self.nodes()[v as int].outputs@[0] as int].value == self.input_value(
                self.nodes()[v as int].inputs@[0] as int,
            ),
    {
        assert(self.node_shaped(v as int));
        assert(self.node_settled(v as int));
        assert(self.node_outputs(v as int)[0] == self.outputs()[self.nodes()[v as int].outputs@[0] as int].value);
        assert(self.node_inputs(v as int)[0] == self.input_value(
            self.nodes()[v as int].inputs@[0] as int,
        ));
    }
}

} // verus!
