use std::collections::VecDeque;
use vstd::prelude::*;
use crate::engine::input_field::{InputField, InputId};
use crate::engine::evaluation::lemma_permutation_covers;
use crate::engine::node::{Node, NodeId, NodeKind};
use crate::engine::order::{
    kahn_run, lemma_relax_list_step, lemma_relax_node_step, lemma_seeds_upto, relax_list,
    relax_node, relax_one, seeds_upto, Progress,
};
use crate::engine::output_pin::{first_index_of, lemma_first_index_of, OutputId, OutputPin};
use crate::engine::pin::PinProperties;
use crate::engine::ports::{renumbered_node, without_node};
use crate::engine::removal::{position_after, slot_after};
use crate::types::data_type::{DataType, DataValue};

verus! {

pub type GraphId = usize;

/// Why a graph operation was refused.
#[derive(Clone, Copy, Debug, PartialEq, Eq, Structural)]
pub enum GraphError {
    UnknownNode,
    UnknownPin,
    KindMismatch,
    AlreadyConnected,
    NotConnected,
    UnknownGraph,
    CycleDetected,
}

/// A dataflow graph: nodes, input slots and output slots in dense storage,
/// the cached execution order, and the flag that marks the order stale.
pub struct Graph {
    nodes: Vec<Node>,
    inputs: Vec<InputField>,
    outputs: Vec<OutputPin>,
    execution_order: Vec<NodeId>,
    order_dirty: bool,
}

/// `order` lists each of the first `n` node positions exactly once.
pub open spec fn is_permutation(order: Seq<NodeId>, n: nat) -> bool {
    &&& order.len() == n
    &&& forall|p: int| 0 <= p < order.len() ==> #[trigger] order[p] < n
    &&& order.no_duplicates()
}

/// Wherever `a` and `b` both occur in `order`, `a` stands before `b`.
pub open spec fn precedes(order: Seq<NodeId>, a: NodeId, b: NodeId) -> bool {
    forall|p: int, q: int|
        0 <= p < order.len() && 0 <= q < order.len() && #[trigger] order[p] == b
            && #[trigger] order[q] == a ==> q < p
}

impl Graph {
    // ----- the model -----

    /// The nodes, by position.
    pub closed spec fn nodes(&self) -> Seq<Node> {
        self.nodes@
    }

    /// The input slots, by position in storage.
    pub closed spec fn inputs(&self) -> Seq<InputField> {
        self.inputs@
    }

    /// The output slots, by position in storage.
    pub closed spec fn outputs(&self) -> Seq<OutputPin> {
        self.outputs@
    }

    /// The cached execution order.
    pub closed spec fn order(&self) -> Seq<NodeId> {
        self.execution_order@
    }

    /// Whether the cached order is stale.
    pub closed spec fn dirty(&self) -> bool {
        self.order_dirty
    }

    /// The kind that the descriptor declares for input slot `s`.
    pub open spec fn input_kind(&self, s: int) -> DataType {
        let f = self.inputs()[s];
        self.nodes()[f.properties.parent_id as int].kind.input_kinds()[f.index as int]
    }

    /// The kind that the descriptor declares for output slot `o`.
    pub open spec fn output_kind(&self, o: int) -> DataType {
        let p = self.outputs()[o];
        self.nodes()[p.properties.parent_id as int].kind.output_kinds()[p.index as int]
    }

    // ----- ownership: every slot and its node point at each other -----

    /// Input slot `s` knows its own position, and its node lists it where the
    /// slot says.
    pub open spec fn input_owned(&self, s: int) -> bool {
        let f = self.inputs()[s];
        let p = f.properties.parent_id as int;
        &&& f.properties.id == s
        &&& p < self.nodes().len()
        &&& (f.index as int) < self.nodes()[p].inputs@.len()
        &&& self.nodes()[p].inputs@[f.index as int] == s
    }

    /// The `k`-th input of node `n` is a slot that names `n` and `k`.
    pub open spec fn input_listed(&self, n: int, k: int) -> bool {
        let s = self.nodes()[n].inputs@[k] as int;
        &&& s < self.inputs().len()
        &&& self.inputs()[s].properties.parent_id == n
        &&& self.inputs()[s].index == k
    }

    /// Output slot `o` knows its own position, and its node lists it where the
    /// slot says.
    pub open spec fn output_owned(&self, o: int) -> bool {
        let f = self.outputs()[o];
        let p = f.properties.parent_id as int;
        &&& f.properties.id == o
        &&& p < self.nodes().len()
        &&& (f.index as int) < self.nodes()[p].outputs@.len()
        &&& self.nodes()[p].outputs@[f.index as int] == o
    }

    /// The `k`-th output of node `n` is a slot that names `n` and `k`.
    pub open spec fn output_listed(&self, n: int, k: int) -> bool {
        let o = self.nodes()[n].outputs@[k] as int;
        &&& o < self.outputs().len()
        &&& self.outputs()[o].properties.parent_id == n
        &&& self.outputs()[o].index == k
    }

    /// No slot or node holds a dangling or stale reference to its owner or to
    /// what it owns.
    pub open spec fn slots_linked(&self) -> bool {
        &&& forall|n: int| 0 <= n < self.nodes().len() ==> (#[trigger] self.nodes()[n]).id == n
        &&& forall|s: int| 0 <= s < self.inputs().len() ==> #[trigger] self.input_owned(s)
        &&& forall|n: int, k: int|
            0 <= n < self.nodes().len() && 0 <= k < self.nodes()[n].inputs@.len()
                ==> #[trigger] self.input_listed(n, k)
        &&& forall|o: int| 0 <= o < self.outputs().len() ==> #[trigger] self.output_owned(o)
        &&& forall|n: int, k: int|
            0 <= n < self.nodes().len() && 0 <= k < self.nodes()[n].outputs@.len()
                ==> #[trigger] self.output_listed(n, k)
    }

    // ----- connections: both ends of every link agree -----

    /// If input slot `s` names an output, that output lists `s`.
    pub open spec fn input_linked(&self, s: int) -> bool {
        self.inputs()[s].connected_output matches Some(o) ==> {
            &&& o < self.outputs().len()
            &&& self.outputs()[o as int].connections@.contains(s as usize)
        }
    }

    /// The `t`-th input that output slot `o` lists names `o`.
    pub open spec fn output_linked(&self, o: int, t: int) -> bool {
        let c = self.outputs()[o].connections@[t] as int;
        &&& c < self.inputs().len()
        &&& self.inputs()[c].connected_output == Some(o as usize)
    }

    /// Every link is recorded at both ends, and no output lists an input
    /// twice.
    pub open spec fn connections_symmetric(&self) -> bool {
        &&& forall|s: int| 0 <= s < self.inputs().len() ==> #[trigger] self.input_linked(s)
        &&& forall|o: int, t: int|
            0 <= o < self.outputs().len() && 0 <= t < self.outputs()[o].connections@.len()
                ==> #[trigger] self.output_linked(o, t)
        &&& forall|o: int|
            0 <= o < self.outputs().len() ==> (#[trigger] self.outputs()[o]).connections@.no_duplicates()
    }

    // ----- kinds: slots conform to the descriptors -----

    /// Node `n` has as many slots as its kind declares.
    pub open spec fn node_shaped(&self, n: int) -> bool {
        let node = self.nodes()[n];
        &&& node.inputs@.len() == node.kind.input_kinds().len()
        &&& node.outputs@.len() == node.kind.output_kinds().len()
    }

    /// Input slot `s` stands at a declared position, holds a value of the
    /// declared kind, and is fed, if at all, by an output of that kind.
    pub open spec fn input_typed(&self, s: int) -> bool {
        let f = self.inputs()[s];
        let kinds = self.nodes()[f.properties.parent_id as int].kind.input_kinds();
        &&& (f.index as int) < kinds.len()
        &&& f.value.kind_spec() == self.input_kind(s)
        &&& f.connected_output matches Some(o) ==> self.output_kind(o as int) == self.input_kind(s)
    }

    /// Output slot `o` stands at a declared position and holds a value of the
    /// declared kind.
    pub open spec fn output_typed(&self, o: int) -> bool {
        let f = self.outputs()[o];
        let kinds = self.nodes()[f.properties.parent_id as int].kind.output_kinds();
        &&& (f.index as int) < kinds.len()
        &&& f.value.kind_spec() == self.output_kind(o)
    }

    /// Every slot conforms to what its node's kind declares.
    pub open spec fn slots_typed(&self) -> bool {
        &&& forall|s: int| 0 <= s < self.inputs().len() ==> #[trigger] self.input_typed(s)
        &&& forall|o: int| 0 <= o < self.outputs().len() ==> #[trigger] self.output_typed(o)
    }

    /// Every node has the slots that its kind declares.
    pub open spec fn nodes_shaped(&self) -> bool {
        forall|n: int| 0 <= n < self.nodes().len() ==> #[trigger] self.node_shaped(n)
    }

    // ----- order -----

    /// If input slot `s` is fed, the feeding node stands before the fed node.
    pub open spec fn edge_ordered(&self, order: Seq<NodeId>, s: int) -> bool {
        self.inputs()[s].connected_output matches Some(o) ==> precedes(
            order,
            self.outputs()[o as int].properties.parent_id,
            self.inputs()[s].properties.parent_id,
        )
    }

    /// `order` lists every node once, and every producer before its consumers.
    pub open spec fn is_topological(&self, order: Seq<NodeId>) -> bool {
        &&& is_permutation(order, self.nodes().len())
        &&& forall|s: int| 0 <= s < self.inputs().len() ==> #[trigger] self.edge_ordered(order, s)
    }

    /// The invariant of the graph. The cached order is held to nothing
    /// while it is stale.
    pub open spec fn wf(&self) -> bool {
        &&& self.slots_linked()
        &&& self.connections_symmetric()
        &&& self.slots_typed()
        &&& self.nodes_shaped()
        &&& !self.dirty() ==> self.is_topological(self.order())
    }

    /// The storage is addressed by machine words.
    pub proof fn lemma_counts_bounded(&self)
        ensures
            self.nodes().len() <= usize::MAX,
            self.inputs().len() <= usize::MAX,
            self.outputs().len() <= usize::MAX,
            self.order().len() <= usize::MAX,
    {
        assert(self.nodes.len() == self.nodes@.len());
        assert(self.inputs.len() == self.inputs@.len());
        assert(self.outputs.len() == self.outputs@.len());
        assert(self.execution_order.len() == self.execution_order@.len());
    }

    /// `other` has the nodes, the inputs and the links of this graph; only
    /// the values that outputs hold may differ.
    pub open spec fn same_wiring(&self, other: &Graph) -> bool {
        &&& self.nodes() == other.nodes()
        &&& self.inputs() == other.inputs()
        &&& self.outputs().len() == other.outputs().len()
        &&& forall|o: int|
            0 <= o < self.outputs().len() ==> {
                &&& (#[trigger] other.outputs()[o]).properties == self.outputs()[o].properties
                &&& other.outputs()[o].index == self.outputs()[o].index
                &&& other.outputs()[o].connections@ == self.outputs()[o].connections@
            }
    }

    /// Writing values of the right kinds into outputs keeps every structural
    /// invariant and every valid order.
    pub proof fn lemma_wiring_carries(&self, other: &Graph)
        requires
            self.same_wiring(other),
            self.connections_symmetric(),
        ensures
            self.slots_linked() ==> other.slots_linked(),
            other.connections_symmetric(),
            self.nodes_shaped() ==> other.nodes_shaped(),
            self.slots_typed() && (forall|o: int|
                0 <= o < self.outputs().len() ==> (#[trigger] other.outputs()[o]).value.kind_spec()
                    == self.outputs()[o].value.kind_spec()) ==> other.slots_typed(),
            forall|order: Seq<NodeId>| #[trigger]
                self.is_topological(order) ==> other.is_topological(order),
    {
        let a = self;
        let b = other;
        if a.slots_linked() {
            assert forall|s: int| 0 <= s < b.inputs().len() implies #[trigger] b.input_owned(s) by {
                assert(a.input_owned(s));
            }
            assert forall|n: int, k: int|
                0 <= n < b.nodes().len() && 0 <= k < b.nodes()[n].inputs@.len() implies #[trigger] b.input_listed(
                n,
                k,
            ) by {
                assert(a.input_listed(n, k));
            }
            assert forall|o: int| 0 <= o < b.outputs().len() implies #[trigger] b.output_owned(o) by {
                assert(a.output_owned(o));
                assert(b.outputs()[o].properties == a.outputs()[o].properties);
            }
            assert forall|n: int, k: int|
                0 <= n < b.nodes().len() && 0 <= k < b.nodes()[n].outputs@.len() implies #[trigger] b.output_listed(
                n,
                k,
            ) by {
                assert(a.output_listed(n, k));
                let o = a.nodes()[n].outputs@[k] as int;
                assert(b.outputs()[o].properties == a.outputs()[o].properties);
            }
        }
        if a.connections_symmetric() {
            assert forall|s: int| 0 <= s < b.inputs().len() implies #[trigger] b.input_linked(s) by {
                assert(a.input_linked(s));
                if let Some(o) = a.inputs()[s].connected_output {
                    assert(b.outputs()[o as int].connections@ == a.outputs()[o as int].connections@);
                }
            }
            assert forall|o: int, t: int|
                0 <= o < b.outputs().len() && 0 <= t < b.outputs()[o].connections@.len() implies #[trigger] b.output_linked(
                o,
                t,
            ) by {
                assert(b.outputs()[o].connections@ == a.outputs()[o].connections@);
                assert(a.output_linked(o, t));
            }
            assert forall|o: int| 0 <= o < b.outputs().len() implies (#[trigger] b.outputs()[o]).connections@.no_duplicates() by {
                assert(a.outputs()[o].connections@.no_duplicates());
            }
        }
        if a.nodes_shaped() {
            assert forall|n: int| 0 <= n < b.nodes().len() implies #[trigger] b.node_shaped(n) by {
                assert(a.node_shaped(n));
            }
        }
        if a.slots_typed() && (forall|o: int|
            0 <= o < a.outputs().len() ==> (#[trigger] b.outputs()[o]).value.kind_spec()
                == a.outputs()[o].value.kind_spec()) {
            assert forall|s: int| 0 <= s < b.inputs().len() implies #[trigger] b.input_typed(s) by {
                assert(a.input_typed(s));
                assert(a.input_linked(s));
                if let Some(o) = a.inputs()[s].connected_output {
                    assert(b.outputs()[o as int].properties == a.outputs()[o as int].properties);
                }
            }
            assert forall|o: int| 0 <= o < b.outputs().len() implies #[trigger] b.output_typed(o) by {
                assert(a.output_typed(o));
                assert(b.outputs()[o].properties == a.outputs()[o].properties);
            }
        }
        assert forall|order: Seq<NodeId>| #[trigger] a.is_topological(order) implies b.is_topological(
            order,
        ) by {
            assert forall|s: int| 0 <= s < b.inputs().len() implies #[trigger] b.edge_ordered(
                order,
                s,
            ) by {
                assert(a.edge_ordered(order, s));
                assert(a.input_linked(s));
                if let Some(o) = a.inputs()[s].connected_output {
                    assert(b.outputs()[o as int].properties == a.outputs()[o as int].properties);
                }
            }
        }
    }

    // ----- construction and reading -----

    /// The empty graph. Its empty order is valid.
    pub fn new() -> (g: Graph)
        ensures
            g.wf(),
            g.nodes().len() == 0,
            g.inputs().len() == 0,
            g.outputs().len() == 0,
            g.order().len() == 0,
            !g.dirty(),
    {
        Graph {
            nodes: Vec::new(),
            inputs: Vec::new(),
            outputs: Vec::new(),
            execution_order: Vec::new(),
            order_dirty: false,
        }
    }

    pub fn node_count(&self) -> (n: usize)
        ensures
            n == self.nodes().len(),
    {
        self.nodes.len()
    }

    pub fn input_count(&self) -> (n: usize)
        ensures
            n == self.inputs().len(),
    {
        self.inputs.len()
    }

    pub fn output_count(&self) -> (n: usize)
        ensures
            n == self.outputs().len(),
    {
        self.outputs.len()
    }

    /// The node at `node_id`.
    pub fn node(&self, node_id: NodeId) -> (r: Result<&Node, GraphError>)
        ensures
            node_id < self.nodes().len() ==> r == Ok::<&Node, GraphError>(&self.nodes()[node_id as int]),
            node_id >= self.nodes().len() ==> r == Err::<&Node, GraphError>(GraphError::UnknownNode),
    {
        if node_id < self.nodes.len() {
            Ok(&self.nodes[node_id])
        } else {
            Err(GraphError::UnknownNode)
        }
    }

    /// The input slot at `input_id`.
    pub fn input(&self, input_id: InputId) -> (r: Result<&InputField, GraphError>)
        ensures
            input_id < self.inputs().len() ==> r == Ok::<&InputField, GraphError>(
                &self.inputs()[input_id as int],
            ),
            input_id >= self.inputs().len() ==> r == Err::<&InputField, GraphError>(
                GraphError::UnknownPin,
            ),
    {
        if input_id < self.inputs.len() {
            Ok(&self.inputs[input_id])
        } else {
            Err(GraphError::UnknownPin)
        }
    }

    /// The output slot at `output_id`.
    pub fn output(&self, output_id: OutputId) -> (r: Result<&OutputPin, GraphError>)
        ensures
            output_id < self.outputs().len() ==> r == Ok::<&OutputPin, GraphError>(
                &self.outputs()[output_id as int],
            ),
            output_id >= self.outputs().len() ==> r == Err::<&OutputPin, GraphError>(
                GraphError::UnknownPin,
            ),
    {
        if output_id < self.outputs.len() {
            Ok(&self.outputs[output_id])
        } else {
            Err(GraphError::UnknownPin)
        }
    }

    /// The cached execution order, to be trusted only while `is_dirty` is
    /// false.
    pub fn execution_order(&self) -> (order: &Vec<NodeId>)
        ensures
            order@ == self.order(),
    {
        &self.execution_order
    }

    pub fn is_dirty(&self) -> (b: bool)
        ensures
            b == self.dirty(),
    {
        self.order_dirty
    }

    // ----- structural mutation -----

    /// Appends a node of `kind` with one input slot per declared input, holding
    /// its default, and one output slot per declared output, holding the zero
    /// of its kind. Marks the order stale and returns the node's position.
    pub fn add_node(&mut self, kind: NodeKind) -> (id: NodeId)
        requires
            old(self).wf(),
        ensures
            final(self).wf(),
            id == old(self).nodes().len(),
            final(self).dirty(),
            final(self).order() == old(self).order(),
            final(self).nodes().len() == old(self).nodes().len() + 1,
            forall|n: int| 0 <= n < old(self).nodes().len() ==> final(self).nodes()[n] == old(self).nodes()[n],
            final(self).nodes()[id as int].id == id,
            final(self).nodes()[id as int].kind == kind,
            final(self).nodes()[id as int].inputs@.len() == kind.input_kinds().len(),
            final(self).nodes()[id as int].outputs@.len() == kind.output_kinds().len(),
            forall|k: int|
                0 <= k < kind.input_kinds().len() ==> #[trigger] final(self).nodes()[id as int].inputs@[k]
                    == old(self).inputs().len() + k,
            forall|k: int|
                0 <= k < kind.output_kinds().len() ==> #[trigger] final(self).nodes()[id as int].outputs@[k]
                    == old(self).outputs().len() + k,
            final(self).inputs().len() == old(self).inputs().len() + kind.input_kinds().len(),
            forall|s: int| 0 <= s < old(self).inputs().len() ==> final(self).inputs()[s] == old(self).inputs()[s],
            forall|k: int|
                0 <= k < kind.input_kinds().len() ==> {
                    let f = #[trigger] final(self).inputs()[old(self).inputs().len() + k];
                    &&& f.properties.id == old(self).inputs().len() + k
                    &&& f.properties.parent_id == id
                    &&& f.index == k
                    &&& f.value == kind.input_defaults()[k]
                    &&& f.connected_output.is_none()
                },
            final(self).outputs().len() == old(self).outputs().len() + kind.output_kinds().len(),
            forall|o: int| 0 <= o < old(self).outputs().len() ==> final(self).outputs()[o] == old(self).outputs()[o],
            forall|k: int|
                0 <= k < kind.output_kinds().len() ==> {
                    let p = #[trigger] final(self).outputs()[old(self).outputs().len() + k];
                    &&& p.properties.id == old(self).outputs().len() + k
                    &&& p.properties.parent_id == id
                    &&& p.index == k
                    &&& p.value == DataValue::zero(kind.output_kinds()[k])
                    &&& p.connections@.len() == 0
                },
    {
        let desc = kind.descriptor();
        let id = self.nodes.len();
        let ghost before = *self;
        proof {
            kind.lemma_shape();
        }

        let mut inputs: Vec<usize> = Vec::new();
        let mut i: usize = 0;
        while i < desc.inputs.len()
            invariant
                desc.describes(kind),
                kind.input_kinds().len() <= 256,
                0 <= i <= desc.inputs@.len(),
                id == before.nodes@.len(),
                self.nodes@ == before.nodes@,
                self.outputs@ == before.outputs@,
                self.execution_order@ == before.execution_order@,
                self.order_dirty == before.order_dirty,
                self.inputs@.len() == before.inputs@.len() + i,
                inputs@.len() == i,
                forall|s: int| 0 <= s < before.inputs@.len() ==> self.inputs@[s] == before.inputs@[s],
                forall|k: int|
                    0 <= k < i ==> {
                        let f = #[trigger] self.inputs@[before.inputs@.len() + k];
                        &&& f.properties.id == before.inputs@.len() + k
                        &&& f.properties.parent_id == id
                        &&& f.index == k
                        &&& f.value == kind.input_defaults()[k]
                        &&& f.connected_output.is_none()
                    },
                forall|k: int| 0 <= k < i ==> #[trigger] inputs@[k] == before.inputs@.len() + k,
            decreases desc.inputs@.len() - i,
        {
            inputs.push(self.inputs.len());
            self.inputs.push(
                InputField {
                    properties: PinProperties { id: self.inputs.len(), parent_id: id },
                    index: i as u8,
                    value: desc.inputs[i].default,
                    connected_output: None,
                },
            );
            i = i + 1;
        }

        let mut outputs: Vec<usize> = Vec::new();
        let mut j: usize = 0;
        while j < desc.outputs.len()
            invariant
                desc.describes(kind),
                kind.output_kinds().len() <= 256,
                0 <= j <= desc.outputs@.len(),
                id == before.nodes@.len(),
                self.nodes@ == before.nodes@,
                self.inputs@.len() == before.inputs@.len() + kind.input_kinds().len(),
                self.execution_order@ == before.execution_order@,
                self.order_dirty == before.order_dirty,
                self.outputs@.len() == before.outputs@.len() + j,
                outputs@.len() == j,
                forall|o: int| 0 <= o < before.outputs@.len() ==> self.outputs@[o] == before.outputs@[o],
                forall|k: int|
                    0 <= k < j ==> {
                        let p = #[trigger] self.outputs@[before.outputs@.len() + k];
                        &&& p.properties.id == before.outputs@.len() + k
                        &&& p.properties.parent_id == id
                        &&& p.index == k
                        &&& p.value == DataValue::zero(kind.output_kinds()[k])
                        &&& p.connections@.len() == 0
                    },
                forall|k: int| 0 <= k < j ==> #[trigger] outputs@[k] == before.outputs@.len() + k,
                forall|s: int| 0 <= s < before.inputs@.len() ==> self.inputs@[s] == before.inputs@[s],
                forall|k: int|
                    0 <= k < kind.input_kinds().len() ==> {
                        let f = #[trigger] self.inputs@[before.inputs@.len() + k];
                        &&& f.properties.id == before.inputs@.len() + k
                        &&& f.properties.parent_id == id
                        &&& f.index == k
                        &&& f.value == kind.input_defaults()[k]
                        &&& f.connected_output.is_none()
                    },
            decreases desc.outputs@.len() - j,
        {
            outputs.push(self.outputs.len());
            self.outputs.push(
                OutputPin {
                    properties: PinProperties { id: self.outputs.len(), parent_id: id },
                    index: j as u8,
                    value: DataValue::default(desc.outputs[j].data_type),
                    connections: Vec::new(),
                },
            );
            j = j + 1;
        }

        let node = Node { id, kind, inputs, outputs };
        self.nodes.push(node);
        self.order_dirty = true;

        proof {
            let n_in = before.inputs@.len();
            let n_out = before.outputs@.len();
            // ownership
            assert forall|s: int| 0 <= s < self.inputs().len() implies #[trigger] self.input_owned(
                s,
            ) by {
                if s < n_in {
                    assert(before.input_owned(s));
                } else {
                    assert(self.inputs@[n_in + (s - n_in)] == self.inputs()[s]);
                }
            }
            assert forall|n: int, k: int|
                0 <= n < self.nodes().len() && 0 <= k < self.nodes()[n].inputs@.len() implies #[trigger] self.input_listed(
                n,
                k,
            ) by {
                if n < id {
                    assert(before.input_listed(n, k));
                } else {
                    assert(self.inputs@[n_in + k].index == k);
                }
            }
            assert forall|o: int| 0 <= o < self.outputs().len() implies #[trigger] self.output_owned(
                o,
            ) by {
                if o < n_out {
                    assert(before.output_owned(o));
                } else {
                    assert(self.outputs@[n_out + (o - n_out)] == self.outputs()[o]);
                }
            }
            assert forall|n: int, k: int|
                0 <= n < self.nodes().len() && 0 <= k < self.nodes()[n].outputs@.len() implies #[trigger] self.output_listed(
                n,
                k,
            ) by {
                if n < id {
                    assert(before.output_listed(n, k));
                } else {
                    assert(self.outputs@[n_out + k].index == k);
                }
            }
            assert(self.slots_linked());
            // connections
            assert forall|s: int| 0 <= s < self.inputs().len() implies #[trigger] self.input_linked(
                s,
            ) by {
                if s < n_in {
                    assert(before.input_linked(s));
                } else {
                    assert(self.inputs@[n_in + (s - n_in)] == self.inputs()[s]);
                }
            }
            assert forall|o: int, t: int|
                0 <= o < self.outputs().len() && 0 <= t < self.outputs()[o].connections@.len() implies #[trigger] self.output_linked(
                o,
                t,
            ) by {
                if o < n_out {
                    assert(before.output_linked(o, t));
                } else {
                    assert(self.outputs@[n_out + (o - n_out)] == self.outputs()[o]);
                }
            }
            assert forall|o: int| 0 <= o < self.outputs().len() implies (#[trigger] self.outputs()[o]).connections@.no_duplicates() by {
                if o < n_out {
                    assert(before.outputs()[o].connections@.no_duplicates());
                } else {
                    assert(self.outputs@[n_out + (o - n_out)] == self.outputs()[o]);
                }
            }
            assert(self.connections_symmetric());
            // kinds
            assert forall|s: int| 0 <= s < self.inputs().len() implies #[trigger] self.input_typed(
                s,
            ) by {
                if s < n_in {
                    assert(before.input_typed(s));
                    assert(before.input_owned(s));
                    assert(before.input_linked(s));
                    if let Some(o) = before.inputs()[s].connected_output {
                        assert(before.output_owned(o as int));
                    }
                } else {
                    assert(self.inputs@[n_in + (s - n_in)] == self.inputs()[s]);
                    assert(kind.input_defaults()[s - n_in].kind_spec() == kind.input_kinds()[s - n_in]);
                }
            }
            assert forall|o: int| 0 <= o < self.outputs().len() implies #[trigger] self.output_typed(
                o,
            ) by {
                if o < n_out {
                    assert(before.output_typed(o));
                    assert(before.output_owned(o));
                } else {
                    assert(self.outputs@[n_out + (o - n_out)] == self.outputs()[o]);
                }
            }
            assert forall|n: int| 0 <= n < self.nodes().len() implies #[trigger] self.node_shaped(
                n,
            ) by {
                if n < id {
                    assert(before.node_shaped(n));
                }
            }
        }
        id
    }

    /// The kind declared for input slot `s`, looked up in its node's
    /// descriptor.
    fn declared_input_kind(&self, s: InputId) -> (k: DataType)
        requires
            self.slots_linked(),
            self.slots_typed(),
            s < self.inputs().len(),
        ensures
            k == self.input_kind(s as int),
    {
        proof {
            assert(self.input_owned(s as int));
            assert(self.input_typed(s as int));
        }
        let f = &self.inputs[s];
        let desc = self.nodes[f.properties.parent_id].kind.descriptor();
        desc.inputs[f.index as usize].data_type
    }

    /// The kind declared for output slot `o`, looked up in its node's
    /// descriptor.
    fn declared_output_kind(&self, o: OutputId) -> (k: DataType)
        requires
            self.slots_linked(),
            self.slots_typed(),
            o < self.outputs().len(),
        ensures
            k == self.output_kind(o as int),
    {
        proof {
            assert(self.output_owned(o as int));
            assert(self.output_typed(o as int));
        }
        let f = &self.outputs[o];
        let desc = self.nodes[f.properties.parent_id].kind.descriptor();
        desc.outputs[f.index as usize].data_type
    }

    /// Why `connect(from, to)` is refused, if it is. An unknown slot is
    /// reported first, then differing kinds, then an input that is already
    /// fed.
    pub open spec fn connect_refusal(&self, from: OutputId, to: InputId) -> Option<GraphError> {
        if from >= self.outputs().len() || to >= self.inputs().len() {
            Some(GraphError::UnknownPin)
        } else if self.output_kind(from as int) != self.input_kind(to as int) {
            Some(GraphError::KindMismatch)
        } else if self.inputs()[to as int].connected_output.is_some() {
            Some(GraphError::AlreadyConnected)
        } else {
            None
        }
    }

    /// Feeds input slot `to` from output slot `from`: the input names the
    /// output, the output lists the input last, and the order becomes stale.
    /// A refused call changes nothing.
    pub fn connect(&mut self, from: OutputId, to: InputId) -> (r: Result<(), GraphError>)
        requires
            old(self).wf(),
        ensures
            final(self).wf(),
            match r {
                Ok(_) => {
                    &&& old(self).connect_refusal(from, to).is_none()
                    &&& final(self).nodes() == old(self).nodes()
                    &&& final(self).order() == old(self).order()
                    &&& final(self).dirty()
                    &&& final(self).inputs() == old(self).inputs().update(
                        to as int,
                        InputField { connected_output: Some(from), ..old(self).inputs()[to as int] },
                    )
                    &&& final(self).outputs().len() == old(self).outputs().len()
                    &&& forall|o: int|
                        0 <= o < old(self).outputs().len() && o != from ==> final(self).outputs()[o]
                            == old(self).outputs()[o]
                    &&& final(self).outputs()[from as int].connections@ == old(
                        self,
                    ).outputs()[from as int].connections@.push(to)
                    &&& final(self).outputs()[from as int].properties == old(
                        self,
                    ).outputs()[from as int].properties
                    &&& final(self).outputs()[from as int].index == old(self).outputs()[from as int].index
                    &&& final(self).outputs()[from as int].value == old(self).outputs()[from as int].value
                },
                Err(e) => {
                    &&& old(self).connect_refusal(from, to) == Some(e)
                    &&& *final(self) == *old(self)
                },
            },
    {
        if from >= self.outputs.len() || to >= self.inputs.len() {
            return Err(GraphError::UnknownPin);
        }
        let from_kind = self.declared_output_kind(from);
        let to_kind = self.declared_input_kind(to);
        if from_kind != to_kind {
            return Err(GraphError::KindMismatch);
        }
        if self.inputs[to].is_connected() {
            return Err(GraphError::AlreadyConnected);
        }
        let ghost before = *self;
        self.inputs[to].connect(from);
        self.outputs[from].connect(to);
        self.order_dirty = true;

        proof {
            assert(self.inputs() =~= before.inputs().update(
                to as int,
                InputField { connected_output: Some(from), ..before.inputs()[to as int] },
            ));
            let list = before.outputs()[from as int].connections@;
            // the input was not listed by the output before
            assert(!list.contains(to)) by {
                if list.contains(to) {
                    let t = choose|t: int| 0 <= t < list.len() && list[t] == to;
                    assert(before.output_linked(from as int, t));
                }
            }
            assert(before.output_owned(from as int));
            assert(before.input_owned(to as int));
            assert forall|s: int| 0 <= s < self.inputs().len() implies #[trigger] self.input_owned(
                s,
            ) by {
                assert(before.input_owned(s));
            }
            assert forall|n: int, k: int|
                0 <= n < self.nodes().len() && 0 <= k < self.nodes()[n].inputs@.len() implies #[trigger] self.input_listed(
                n,
                k,
            ) by {
                assert(before.input_listed(n, k));
            }
            assert forall|o: int| 0 <= o < self.outputs().len() implies #[trigger] self.output_owned(
                o,
            ) by {
                assert(before.output_owned(o));
            }
            assert forall|n: int, k: int|
                0 <= n < self.nodes().len() && 0 <= k < self.nodes()[n].outputs@.len() implies #[trigger] self.output_listed(
                n,
                k,
            ) by {
                assert(before.output_listed(n, k));
            }
            assert forall|s: int| 0 <= s < self.inputs().len() implies #[trigger] self.input_linked(
                s,
            ) by {
                assert(before.input_linked(s));
                if s == to {
                    assert(list.push(to)[list.len() as int] == to);
                } else if let Some(o) = before.inputs()[s].connected_output {
                    if o == from {
                        let t = choose|t: int| 0 <= t < list.len() && list[t] == s as usize;
                        assert(list.push(to)[t] == s as usize);
                    }
                }
            }
            assert forall|o: int, t: int|
                0 <= o < self.outputs().len() && 0 <= t < self.outputs()[o].connections@.len() implies #[trigger] self.output_linked(
                o,
                t,
            ) by {
                if o == from {
                    if t < list.len() {
                        assert(before.output_linked(o, t));
                        assert(list[t] != to);
                    }
                } else {
                    assert(before.output_linked(o, t));
                }
            }
            assert forall|o: int| 0 <= o < self.outputs().len() implies (#[trigger] self.outputs()[o]).connections@.no_duplicates() by {
                assert(before.outputs()[o].connections@.no_duplicates());
            }
            assert forall|s: int| 0 <= s < self.inputs().len() implies #[trigger] self.input_typed(
                s,
            ) by {
                assert(before.input_typed(s));
                assert(before.input_linked(s));
            }
            assert forall|o: int| 0 <= o < self.outputs().len() implies #[trigger] self.output_typed(
                o,
            ) by {
                assert(before.output_typed(o));
            }
            assert forall|n: int| 0 <= n < self.nodes().len() implies #[trigger] self.node_shaped(
                n,
            ) by {
                assert(before.node_shaped(n));
            }
        }
        Ok(())
    }

    /// Why `disconnect(input_id)` is refused, if it is.
    pub open spec fn disconnect_refusal(&self, input_id: InputId) -> Option<GraphError> {
        if input_id >= self.inputs().len() {
            Some(GraphError::UnknownPin)
        } else if self.inputs()[input_id as int].connected_output.is_none() {
            Some(GraphError::NotConnected)
        } else {
            None
        }
    }

    /// Cuts the link that feeds input slot `input_id`: the feeding output no
    /// longer lists the input, the others it lists keep their order, the input
    /// names no output, and the order becomes stale. A refused call changes
    /// nothing.
    pub fn disconnect(&mut self, input_id: InputId) -> (r: Result<(), GraphError>)
        requires
            old(self).wf(),
        ensures
            final(self).wf(),
            match r {
                Ok(_) => {
                    &&& old(self).disconnect_refusal(input_id).is_none()
                    &&& final(self).dirty()
                    &&& final(self).order() == old(self).order()
                    &&& old(self).severed(*final(self), input_id)
                },
                Err(e) => {
                    &&& old(self).disconnect_refusal(input_id) == Some(e)
                    &&& *final(self) == *old(self)
                },
            },
    {
        if input_id >= self.inputs.len() {
            return Err(GraphError::UnknownPin);
        }
        if !self.inputs[input_id].is_connected() {
            return Err(GraphError::NotConnected);
        }
        let ghost before = *self;
        self.order_dirty = true;
        proof {
            before.lemma_wiring_carries(&*self);
        }
        self.sever(input_id);
        Ok(())
    }

    /// `after` is this graph with the link into input slot `s` cut and
    /// nothing else touched: nodes and slot storage keep their places.
    pub open spec fn severed(&self, after: Graph, s: InputId) -> bool {
        let o = self.inputs()[s as int].connected_output.unwrap() as int;
        let list = self.outputs()[o].connections@;
        &&& after.nodes() == self.nodes()
        &&& after.inputs() == self.inputs().update(
            s as int,
            InputField { connected_output: None, ..self.inputs()[s as int] },
        )
        &&& after.outputs().len() == self.outputs().len()
        &&& forall|p: int|
            0 <= p < self.outputs().len() && p != o ==> after.outputs()[p] == self.outputs()[p]
        &&& after.outputs()[o].connections@ == list.remove(first_index_of(list, s))
        &&& after.outputs()[o].properties == self.outputs()[o].properties
        &&& after.outputs()[o].index == self.outputs()[o].index
        &&& after.outputs()[o].value == self.outputs()[o].value
    }

    /// Cuts the link into input slot `s`, leaving order and flag alone.
    fn sever(&mut self, s: InputId)
        requires
            old(self).slots_linked(),
            old(self).connections_symmetric(),
            old(self).slots_typed(),
            s < old(self).inputs().len(),
            old(self).inputs()[s as int].connected_output.is_some(),
        ensures
            final(self).slots_linked(),
            final(self).connections_symmetric(),
            final(self).slots_typed(),
            old(self).nodes_shaped() ==> final(self).nodes_shaped(),
            old(self).severed(*final(self), s),
            final(self).order() == old(self).order(),
            final(self).dirty() == old(self).dirty(),
    {
        let ghost before = *self;
        proof {
            assert(before.input_linked(s as int));
        }
        let o = self.inputs[s].disconnect();
        self.outputs[o].disconnect(s);

        proof {
            before.lemma_counts_bounded();
            let list = before.outputs()[o as int].connections@;
            let at = first_index_of(list, s);
            lemma_first_index_of(list, s);
            let rest = list.remove(at);
            assert(self.outputs()[o as int].connections@ == rest);
            assert(self.inputs() =~= before.inputs().update(
                s as int,
                InputField { connected_output: None, ..before.inputs()[s as int] },
            ));
            assert(before.outputs()[o as int].connections@.no_duplicates());
            assert forall|t: int| 0 <= t < rest.len() implies #[trigger] rest[t] != s && rest[t] == list[if t
                < at {
                t
            } else {
                t + 1
            }] by {}
            assert forall|c: int| 0 <= c < self.inputs().len() implies #[trigger] self.input_owned(
                c,
            ) by {
                assert(before.input_owned(c));
            }
            assert forall|n: int, k: int|
                0 <= n < self.nodes().len() && 0 <= k < self.nodes()[n].inputs@.len() implies #[trigger] self.input_listed(
                n,
                k,
            ) by {
                assert(before.input_listed(n, k));
            }
            assert forall|p: int| 0 <= p < self.outputs().len() implies #[trigger] self.output_owned(
                p,
            ) by {
                assert(before.output_owned(p));
            }
            assert forall|n: int, k: int|
                0 <= n < self.nodes().len() && 0 <= k < self.nodes()[n].outputs@.len() implies #[trigger] self.output_listed(
                n,
                k,
            ) by {
                assert(before.output_listed(n, k));
            }
            assert forall|c: int| 0 <= c < self.inputs().len() implies #[trigger] self.input_linked(
                c,
            ) by {
                assert(before.input_linked(c));
                if c != s {
                    if let Some(p) = before.inputs()[c].connected_output {
                        if p == o {
                            let t = choose|t: int| 0 <= t < list.len() && list[t] == c as usize;
                            assert(t != at);
                            let t2 = if t < at {
                                t
                            } else {
                                t - 1
                            };
                            assert(rest[t2] == c as usize);
                        }
                    }
                }
            }
            assert forall|p: int, t: int|
                0 <= p < self.outputs().len() && 0 <= t < self.outputs()[p].connections@.len() implies #[trigger] self.output_linked(
                p,
                t,
            ) by {
                if p == o {
                    let t0 = if t < at {
                        t
                    } else {
                        t + 1
                    };
                    assert(rest[t] == list[t0]);
                    assert(before.output_linked(p, t0));
                } else {
                    assert(before.output_linked(p, t));
                    if before.outputs()[p].connections@[t] == s {
                        assert(false);
                    }
                }
            }
            assert forall|p: int| 0 <= p < self.outputs().len() implies (#[trigger] self.outputs()[p]).connections@.no_duplicates() by {
                assert(before.outputs()[p].connections@.no_duplicates());
                if p == o {
                    assert forall|i: int, j: int| 0 <= i < rest.len() && 0 <= j < rest.len() && i != j implies rest[i] != rest[j] by {
                        let i0 = if i < at { i } else { i + 1 };
                        let j0 = if j < at { j } else { j + 1 };
                        assert(rest[i] == list[i0]);
                        assert(rest[j] == list[j0]);
                    }
                }
            }
            assert forall|c: int| 0 <= c < self.inputs().len() implies #[trigger] self.input_typed(
                c,
            ) by {
                assert(before.input_typed(c));
                assert(before.input_linked(c));
            }
            assert forall|p: int| 0 <= p < self.outputs().len() implies #[trigger] self.output_typed(
                p,
            ) by {
                assert(before.output_typed(p));
            }
            if before.nodes_shaped() {
                assert forall|n: int| 0 <= n < self.nodes().len() implies #[trigger] self.node_shaped(
                    n,
                ) by {
                    assert(before.node_shaped(n));
                }
            }
        }
    }

    /// Why `set_input_value(input_id, value)` is refused, if it is.
    pub open spec fn set_input_refusal(&self, input_id: InputId, value: DataValue) -> Option<
        GraphError,
    > {
        if input_id >= self.inputs().len() {
            Some(GraphError::UnknownPin)
        } else if value.kind_spec() != self.input_kind(input_id as int) {
            Some(GraphError::KindMismatch)
        } else {
            None
        }
    }

    /// Replaces the local value of input slot `input_id`, which is what the
    /// slot's node reads while no output feeds the slot. A refused call
    /// changes nothing.
    pub fn set_input_value(&mut self, input_id: InputId, value: DataValue) -> (r: Result<
        (),
        GraphError,
    >)
        requires
            old(self).wf(),
        ensures
            final(self).wf(),
            match r {
                Ok(_) => {
                    &&& old(self).set_input_refusal(input_id, value).is_none()
                    &&& final(self).nodes() == old(self).nodes()
                    &&& final(self).outputs() == old(self).outputs()
                    &&& final(self).order() == old(self).order()
                    &&& final(self).dirty() == old(self).dirty()
                    &&& final(self).inputs() == old(self).inputs().update(
                        input_id as int,
                        InputField { value, ..old(self).inputs()[input_id as int] },
                    )
                },
                Err(e) => {
                    &&& old(self).set_input_refusal(input_id, value) == Some(e)
                    &&& *final(self) == *old(self)
                },
            },
    {
        if input_id >= self.inputs.len() {
            return Err(GraphError::UnknownPin);
        }
        if value.kind() != self.declared_input_kind(input_id) {
            return Err(GraphError::KindMismatch);
        }
        let ghost before = *self;
        self.inputs[input_id].set_value(value);
        proof {
            assert(self.inputs() =~= before.inputs().update(
                input_id as int,
                InputField { value, ..before.inputs()[input_id as int] },
            ));
            assert forall|c: int| 0 <= c < self.inputs().len() implies #[trigger] self.input_owned(
                c,
            ) by {
                assert(before.input_owned(c));
            }
            assert forall|n: int, k: int|
                0 <= n < self.nodes().len() && 0 <= k < self.nodes()[n].inputs@.len() implies #[trigger] self.input_listed(
                n,
                k,
            ) by {
                assert(before.input_listed(n, k));
            }
            assert forall|p: int| 0 <= p < self.outputs().len() implies #[trigger] self.output_owned(
                p,
            ) by {
                assert(before.output_owned(p));
            }
            assert forall|n: int, k: int|
                0 <= n < self.nodes().len() && 0 <= k < self.nodes()[n].outputs@.len() implies #[trigger] self.output_listed(
                n,
                k,
            ) by {
                assert(before.output_listed(n, k));
            }
            assert forall|c: int| 0 <= c < self.inputs().len() implies #[trigger] self.input_linked(
                c,
            ) by {
                assert(before.input_linked(c));
            }
            assert forall|p: int, t: int|
                0 <= p < self.outputs().len() && 0 <= t < self.outputs()[p].connections@.len() implies #[trigger] self.output_linked(
                p,
                t,
            ) by {
                assert(before.output_linked(p, t));
            }
            assert forall|c: int| 0 <= c < self.inputs().len() implies #[trigger] self.input_typed(
                c,
            ) by {
                assert(before.input_typed(c));
            }
            assert forall|p: int| 0 <= p < self.outputs().len() implies #[trigger] self.output_typed(
                p,
            ) by {
                assert(before.output_typed(p));
            }
            assert forall|n: int| 0 <= n < self.nodes().len() implies #[trigger] self.node_shaped(
                n,
            ) by {
                assert(before.node_shaped(n));
            }
            if !self.dirty() {
                assert forall|c: int| 0 <= c < self.inputs().len() implies #[trigger] self.edge_ordered(
                    self.order(),
                    c,
                ) by {
                    assert(before.edge_ordered(before.order(), c));
                }
            }
        }
        Ok(())
    }

    // ----- ordering -----

    /// For each node, the number of its inputs that an output feeds.
    fn calculate_indegrees(&self) -> (deg: Vec<usize>)
        requires
            self.slots_linked(),
        ensures
            deg@.len() == self.nodes().len(),
            forall|v: int| 0 <= v < deg@.len() ==> #[trigger] deg@[v] as int == self.in_degrees()[v],
    {
        let mut deg: Vec<usize> = Vec::new();
        let mut v: usize = 0;
        while v < self.nodes.len()
            invariant
                self.slots_linked(),
                0 <= v <= self.nodes().len(),
                deg@.len() == v,
                forall|w: int| 0 <= w < v ==> #[trigger] deg@[w] as int == self.in_degrees()[w],
            decreases self.nodes().len() - v,
        {
            let mut count: usize = 0;
            let mut k: usize = 0;
            while k < self.nodes[v].inputs.len()
                invariant
                    self.slots_linked(),
                    v < self.nodes().len(),
                    0 <= k <= self.nodes()[v as int].inputs@.len(),
                    count as int == self.fed_count(v as int, k as int),
                    count <= k,
                decreases self.nodes()[v as int].inputs@.len() - k,
            {
                proof {
                    assert(self.input_listed(v as int, k as int));
                }
                let s = self.nodes[v].inputs[k];
                if self.inputs[s].is_connected() {
                    count = count + 1;
                }
                k = k + 1;
            }
            deg.push(count);
            v = v + 1;
        }
        deg
    }

    /// Recomputes the execution order. On success the order is stored and the
    /// stale flag cleared; if the graph has a cycle the call fails and leaves
    /// the graph, its cached order and its flag as they were.
    pub fn sort_nodes(&mut self) -> (r: Result<(), GraphError>)
        requires
            old(self).wf(),
        ensures
            final(self).wf(),
            final(self).nodes() == old(self).nodes(),
            final(self).inputs() == old(self).inputs(),
            final(self).outputs() == old(self).outputs(),
            match r {
                Ok(_) => {
                    &&& !old(self).has_cycle()
                    &&& old(self).sorted_order().len() == old(self).nodes().len()
                    &&& final(self).order() == old(self).sorted_order()
                    &&& !final(self).dirty()
                },
                Err(e) => {
                    &&& e == GraphError::CycleDetected
                    &&& old(self).has_cycle()
                    &&& old(self).sorted_order().len() < old(self).nodes().len()
                    &&& *final(self) == *old(self)
                },
            },
    {
        let n = self.nodes.len();
        let mut in_degrees = self.calculate_indegrees();
        let ghost g = *self;
        let ghost tg = g.targets();
        let ghost d0 = g.in_degrees();
        let mut queue: VecDeque<NodeId> = VecDeque::new();

        let mut seed: usize = 0;
        while seed < n
            invariant
                0 <= seed <= n,
                n == d0.len(),
                in_degrees@.len() == n,
                forall|w: int| 0 <= w < n ==> #[trigger] in_degrees@[w] as int == d0[w],
                queue@ == seeds_upto(d0, seed as int),
            decreases n - seed,
        {
            if in_degrees[seed] == 0 {
                queue.push_back(seed);
            }
            seed = seed + 1;
        }

        let mut order: Vec<NodeId> = Vec::new();
        let ghost mut dm = d0;
        proof {
            lemma_seeds_upto(d0, n as int);
            g.lemma_sorting_initial(queue@);
        }
        while queue.len() > 0
            invariant
                *self == g,
                g.slots_linked(),
                g.connections_symmetric(),
                n == g.nodes().len(),
                tg == g.targets(),
                order@.len() <= n,
                in_degrees@.len() == n,
                forall|w: int| 0 <= w < n ==> #[trigger] in_degrees@[w] as int == dm[w],
                g.sorting(dm, queue@, Progress { order: order@, done: order@.len() as int, output: 0, link: 0 }),
                kahn_run(tg, dm, queue@, order@, (n - order@.len()) as nat) == g.sorted_order(),
            decreases n - order@.len(),
        {
            proof {
                g.lemma_sorting_dequeue(
                    dm,
                    queue@,
                    Progress { order: order@, done: order@.len() as int, output: 0, link: 0 },
                );
            }
            let ghost queue_before = queue@;
            let u = match queue.pop_front() {
                Some(u) => u,
                None => 0,
            };
            let ghost done = order@.len() as int;
            order.push(u);
            let ghost dm_start = dm;
            let ghost queue_start = queue@;
            proof {
                assert(queue_start =~= queue_before.drop_first());
                assert(tg[u as int].subrange(0, tg[u as int].len() as int) =~= tg[u as int]);
            }

            let mut j: usize = 0;
            while j < self.nodes[u].outputs.len()
                invariant
                    *self == g,
                    g.slots_linked(),
                    g.connections_symmetric(),
                    n == g.nodes().len(),
                    tg == g.targets(),
                    u < n,
                    order@.len() == done + 1,
                    order@[done] == u,
                    in_degrees@.len() == n,
                    forall|w: int| 0 <= w < n ==> #[trigger] in_degrees@[w] as int == dm[w],
                    0 <= j <= g.nodes()[u as int].outputs@.len(),
                    g.sorting(dm, queue@, Progress { order: order@, done, output: j as int, link: 0 }),
                    relax_node(dm, queue@, tg[u as int].subrange(j as int, tg[u as int].len() as int))
                        == relax_node(dm_start, queue_start, tg[u as int]),
                decreases g.nodes()[u as int].outputs@.len() - j,
            {
                proof {
                    assert(g.output_listed(u as int, j as int));
                }
                let o = self.nodes[u].outputs[j];
                let ghost list = tg[u as int][j as int];
                let ghost dm_j = dm;
                let ghost queue_j = queue@;
                proof {
                    assert(list == g.output_targets(o as int));
                    assert(list.subrange(0, list.len() as int) =~= list);
                    lemma_relax_node_step(dm, queue@, tg[u as int], j as int);
                }
                let mut t: usize = 0;
                while t < self.outputs[o].connections.len()
                    invariant
                        *self == g,
                        g.slots_linked(),
                        g.connections_symmetric(),
                        n == g.nodes().len(),
                        u < n,
                        order@.len() == done + 1,
                        order@[done] == u,
                        in_degrees@.len() == n,
                        forall|w: int| 0 <= w < n ==> #[trigger] in_degrees@[w] as int == dm[w],
                        j < g.nodes()[u as int].outputs@.len(),
                        o == g.nodes()[u as int].outputs@[j as int],
                        o < g.outputs().len(),
                        list == g.output_targets(o as int),
                        0 <= t <= g.outputs()[o as int].connections@.len(),
                        g.sorting(
                            dm,
                            queue@,
                            Progress { order: order@, done, output: j as int, link: t as int },
                        ),
                        relax_list(dm, queue@, list.subrange(t as int, list.len() as int))
                            == relax_list(dm_j, queue_j, list),
                    decreases g.outputs()[o as int].connections@.len() - t,
                {
                    proof {
                        g.lemma_sorting_release(
                            dm,
                            queue@,
                            Progress { order: order@, done, output: j as int, link: t as int },
                        );
                        lemma_relax_list_step(dm, queue@, list, t as int);
                    }
                    let c = self.outputs[o].connections[t];
                    let v = self.inputs[c].properties.parent_id;
                    let ghost queue_now = queue@;
                    let left = in_degrees[v] - 1;
                    in_degrees[v] = left;
                    if left == 0 {
                        queue.push_back(v);
                    }
                    proof {
                        dm = relax_one(dm, queue_now, v).0;
                    }
                    t = t + 1;
                }
                proof {
                    g.lemma_sorting_next_output(
                        dm,
                        queue@,
                        Progress { order: order@, done, output: j as int, link: t as int },
                    );
                    assert(list.subrange(t as int, list.len() as int).len() == 0);
                }
                j = j + 1;
            }
            proof {
                g.lemma_sorting_finish(
                    dm,
                    queue@,
                    Progress { order: order@, done, output: j as int, link: 0 },
                );
                assert(tg[u as int].subrange(j as int, tg[u as int].len() as int).len() == 0);
            }
        }

        if order.len() != n {
            proof {
                assert(queue@ =~= Seq::<NodeId>::empty());
                g.lemma_stuck_has_cycle(
                    dm,
                    Progress { order: order@, done: order@.len() as int, output: 0, link: 0 },
                );
            }
            return Err(GraphError::CycleDetected);
        }
        proof {
            g.lemma_sorting_complete(
                dm,
                queue@,
                Progress { order: order@, done: order@.len() as int, output: 0, link: 0 },
            );
            g.lemma_order_excludes_cycle(order@);
        }
        self.execution_order = order;
        self.order_dirty = false;
        proof {
            g.lemma_wiring_carries(&*self);
        }
        Ok(())
    }

    // ----- evaluation -----

    /// The input slots of a node, in declared order.
    fn inputs_for(&self, node_id: NodeId) -> (fields: Vec<&InputField>)
        requires
            self.slots_linked(),
            node_id < self.nodes().len(),
        ensures
            fields@.len() == self.nodes()[node_id as int].inputs@.len(),
            forall|k: int|
                0 <= k < fields@.len() ==> *#[trigger] fields@[k]
                    == self.inputs()[self.nodes()[node_id as int].inputs@[k] as int],
    {
        let node = &self.nodes[node_id];
        let mut fields: Vec<&InputField> = Vec::new();
        let mut k: usize = 0;
        while k < node.inputs.len()
            invariant
                self.slots_linked(),
                node_id < self.nodes().len(),
                *node == self.nodes()[node_id as int],
                0 <= k <= node.inputs@.len(),
                fields@.len() == k,
                forall|i: int|
                    0 <= i < k ==> *#[trigger] fields@[i] == self.inputs()[node.inputs@[i] as int],
            decreases node.inputs@.len() - k,
        {
            proof {
                assert(self.input_listed(node_id as int, k as int));
            }
            fields.push(&self.inputs[node.inputs[k]]);
            k = k + 1;
        }
        fields
    }

    /// The output slots of a node, in declared order.
    fn outputs_for(&self, node_id: NodeId) -> (pins: Vec<&OutputPin>)
        requires
            self.slots_linked(),
            node_id < self.nodes().len(),
        ensures
            pins@.len() == self.nodes()[node_id as int].outputs@.len(),
            forall|k: int|
                0 <= k < pins@.len() ==> *#[trigger] pins@[k]
                    == self.outputs()[self.nodes()[node_id as int].outputs@[k] as int],
    {
        let node = &self.nodes[node_id];
        let mut pins: Vec<&OutputPin> = Vec::new();
        let mut k: usize = 0;
        while k < node.outputs.len()
            invariant
                self.slots_linked(),
                node_id < self.nodes().len(),
                *node == self.nodes()[node_id as int],
                0 <= k <= node.outputs@.len(),
                pins@.len() == k,
                forall|i: int|
                    0 <= i < k ==> *#[trigger] pins@[i] == self.outputs()[node.outputs@[i] as int],
            decreases node.outputs@.len() - k,
        {
            proof {
                assert(self.output_listed(node_id as int, k as int));
            }
            pins.push(&self.outputs[node.outputs[k]]);
            k = k + 1;
        }
        pins
    }

    /// The values that the inputs of a node present: for each input the value
    /// of the output that feeds it, or its local value if none does.
    fn input_values_for(&self, node_id: NodeId) -> (values: Vec<DataValue>)
        requires
            self.slots_linked(),
            self.connections_symmetric(),
            node_id < self.nodes().len(),
        ensures
            values@ == self.node_inputs(node_id as int),
    {
        let fields = self.inputs_for(node_id);
        let mut values: Vec<DataValue> = Vec::new();
        let mut k: usize = 0;
        while k < fields.len()
            invariant
                self.slots_linked(),
                self.connections_symmetric(),
                node_id < self.nodes().len(),
                fields@.len() == self.nodes()[node_id as int].inputs@.len(),
                forall|i: int|
                    0 <= i < fields@.len() ==> *#[trigger] fields@[i]
                        == self.inputs()[self.nodes()[node_id as int].inputs@[i] as int],
                0 <= k <= fields@.len(),
                values@.len() == k,
                forall|i: int| 0 <= i < k ==> #[trigger] values@[i] == self.node_inputs(node_id as int)[i],
            decreases fields@.len() - k,
        {
            proof {
                assert(self.input_listed(node_id as int, k as int));
                assert(self.input_linked(self.nodes()[node_id as int].inputs@[k as int] as int));
            }
            let input = fields[k];
            let value = match input.connected_output {
                Some(output_id) => self.outputs[output_id].value,
                None => input.value,
            };
            values.push(value);
            k = k + 1;
        }
        proof {
            assert(values@ =~= self.node_inputs(node_id as int));
        }
        values
    }

    /// The values that the outputs of a node hold.
    fn output_values_for(&self, node_id: NodeId) -> (values: Vec<DataValue>)
        requires
            self.slots_linked(),
            node_id < self.nodes().len(),
        ensures
            values@ == self.node_outputs(node_id as int),
    {
        let pins = self.outputs_for(node_id);
        let mut values: Vec<DataValue> = Vec::new();
        let mut k: usize = 0;
        while k < pins.len()
            invariant
                pins@.len() == self.nodes()[node_id as int].outputs@.len(),
                forall|i: int|
                    0 <= i < pins@.len() ==> *#[trigger] pins@[i]
                        == self.outputs()[self.nodes()[node_id as int].outputs@[i] as int],
                0 <= k <= pins@.len(),
                values@.len() == k,
                forall|i: int| 0 <= i < k ==> #[trigger] values@[i] == self.node_outputs(node_id as int)[i],
            decreases pins@.len() - k,
        {
            values.push(pins[k].value);
            k = k + 1;
        }
        proof {
            assert(values@ =~= self.node_outputs(node_id as int));
        }
        values
    }

    /// Writes `values` into the outputs of a node, in declared order, and
    /// touches nothing else.
    fn store_output_values(&mut self, node_id: NodeId, values: &Vec<DataValue>)
        requires
            old(self).wf(),
            node_id < old(self).nodes().len(),
            old(self).nodes()[node_id as int].kind.yields(values@),
        ensures
            final(self).wf(),
            old(self).same_wiring(final(self)),
            final(self).order() == old(self).order(),
            final(self).dirty() == old(self).dirty(),
            final(self).node_outputs(node_id as int) == values@,
            forall|o: int|
                0 <= o < old(self).outputs().len() && old(self).outputs()[o].properties.parent_id
                    != node_id ==> (#[trigger] final(self).outputs()[o]).value == old(
                    self,
                ).outputs()[o].value,
    {
        let ghost g = *self;
        proof {
            assert(g.node_shaped(node_id as int));
        }
        let mut k: usize = 0;
        while k < self.nodes[node_id].outputs.len()
            invariant
                g.wf(),
                g.same_wiring(&*self),
                self.order() == g.order(),
                self.dirty() == g.dirty(),
                node_id < g.nodes().len(),
                g.nodes()[node_id as int].kind.yields(values@),
                values@.len() == g.nodes()[node_id as int].outputs@.len(),
                0 <= k <= g.nodes()[node_id as int].outputs@.len(),
                forall|o: int|
                    0 <= o < g.outputs().len() ==> (#[trigger] self.outputs()[o]).value == if g.outputs()[o].properties.parent_id
                        == node_id && g.outputs()[o].index < k {
                        values@[g.outputs()[o].index as int]
                    } else {
                        g.outputs()[o].value
                    },
            decreases g.nodes()[node_id as int].outputs@.len() - k,
        {
            proof {
                assert(g.output_listed(node_id as int, k as int));
            }
            let o = self.nodes[node_id].outputs[k];
            let ghost mid = *self;
            self.outputs[o].set_value(values[k]);
            proof {
                assert forall|p: int| 0 <= p < g.outputs().len() implies (#[trigger] self.outputs()[p]).value
                    == if g.outputs()[p].properties.parent_id == node_id && g.outputs()[p].index < k
                    + 1 {
                    values@[g.outputs()[p].index as int]
                } else {
                    g.outputs()[p].value
                } by {
                    assert(mid.outputs()[p].value == if g.outputs()[p].properties.parent_id
                        == node_id && g.outputs()[p].index < k {
                        values@[g.outputs()[p].index as int]
                    } else {
                        g.outputs()[p].value
                    });
                    assert(g.output_owned(p));
                }
                assert forall|p: int| 0 <= p < g.outputs().len() implies {
                    &&& (#[trigger] self.outputs()[p]).properties == g.outputs()[p].properties
                    &&& self.outputs()[p].index == g.outputs()[p].index
                    &&& self.outputs()[p].connections@ == g.outputs()[p].connections@
                } by {
                    assert(mid.outputs()[p].properties == g.outputs()[p].properties);
                }
            }
            k = k + 1;
        }
        proof {
            g.lemma_wiring_carries(&*self);
            assert forall|p: int| 0 <= p < g.outputs().len() implies (#[trigger] self.outputs()[p]).value.kind_spec()
                == g.outputs()[p].value.kind_spec() by {
                assert(g.output_typed(p));
                assert(g.output_owned(p));
                if g.outputs()[p].properties.parent_id == node_id {
                    assert(values@[g.outputs()[p].index as int].kind_spec()
                        == g.nodes()[node_id as int].kind.output_kinds()[g.outputs()[p].index as int]);
                }
            }
            assert forall|i: int| 0 <= i < values@.len() implies self.node_outputs(node_id as int)[i]
                == values@[i] by {
                assert(g.output_listed(node_id as int, i));
                let p = g.nodes()[node_id as int].outputs@[i] as int;
                assert(self.outputs()[p].value == values@[i]);
            }
            assert(self.node_outputs(node_id as int) =~= values@);
        }
    }

    /// Evaluates the graph. If the order is stale it is recomputed first; a
    /// cycle makes the call fail and leaves the graph as it was. Then every
    /// node is run once, in execution order: its kind's transformation reads
    /// the values that the node's inputs present and overwrites the node's
    /// outputs. Afterwards the outputs of every node are what its kind
    /// computes from the values its inputs present.
    pub fn process(&mut self) -> (r: Result<(), GraphError>)
        requires
            old(self).wf(),
        ensures
            final(self).wf(),
            match r {
                Ok(_) => {
                    &&& !old(self).has_cycle()
                    &&& old(self).dirty() ==> old(self).sorted_order().len() == old(self).nodes().len()
                    &&& !final(self).dirty()
                    &&& final(self).order() == if old(self).dirty() {
                        old(self).sorted_order()
                    } else {
                        old(self).order()
                    }
                    &&& final(self).is_topological(final(self).order())
                    &&& old(self).same_wiring(final(self))
                    &&& final(self).settled()
                },
                Err(e) => {
                    &&& e == GraphError::CycleDetected
                    &&& old(self).has_cycle()
                    &&& old(self).dirty()
                    &&& old(self).sorted_order().len() < old(self).nodes().len()
                    &&& *final(self) == *old(self)
                },
            },
    {
        proof {
            if !self.dirty() {
                self.lemma_order_excludes_cycle(self.order());
            }
        }
        if self.order_dirty {
            match self.sort_nodes() {
                Ok(_) => {},
                Err(e) => {
                    return Err(e);
                },
            }
        }
        let ghost g = *self;
        let ghost order = self.order();
        let mut i: usize = 0;
        while i < self.execution_order.len()
            invariant
                self.wf(),
                !self.dirty(),
                self.order() == order,
                g.wf(),
                g.same_wiring(&*self),
                0 <= i <= order.len(),
                forall|p: int| 0 <= p < i ==> #[trigger] self.node_settled(order[p] as int),
            decreases order.len() - i,
        {
            let node_id = self.execution_order[i];
            proof {
                assert(order[i as int] < self.nodes().len());
                self.lemma_node_inputs_accepted(node_id as int);
            }
            let inputs = self.input_values_for(node_id);
            let mut outputs = self.output_values_for(node_id);
            let desc = self.nodes[node_id].kind.descriptor();
            let ghost before = *self;
            desc.process(inputs, &mut outputs);
            self.store_output_values(node_id, &outputs);
            proof {
                assert forall|p: int| 0 <= p < i + 1 implies #[trigger] self.node_settled(
                    order[p] as int,
                ) by {
                    before.lemma_rewrite_keeps_inputs(&*self, order, i as int, p);
                    if p < i {
                        assert(before.node_settled(order[p] as int));
                    }
                }
                assert forall|o: int| 0 <= o < g.outputs().len() implies {
                    &&& (#[trigger] self.outputs()[o]).properties == g.outputs()[o].properties
                    &&& self.outputs()[o].index == g.outputs()[o].index
                    &&& self.outputs()[o].connections@ == g.outputs()[o].connections@
                } by {
                    assert(before.outputs()[o].properties == g.outputs()[o].properties);
                }
            }
            i = i + 1;
        }
        proof {
            assert forall|v: int| 0 <= v < self.nodes().len() implies #[trigger] self.node_settled(
                v,
            ) by {
                self.lemma_counts_bounded();
                lemma_permutation_covers(order, self.nodes().len(), v as usize);
                let p = choose|p: int| 0 <= p < order.len() && order[p] == v as usize;
                assert(self.node_settled(order[p] as int));
            }
        }
        Ok(())
    }

    // ----- removal -----

    /// Cuts every link into and out of node `id`; nodes and slots keep their
    /// places.
    fn detach_node(&mut self, id: NodeId)
        requires
            old(self).slots_linked(),
            old(self).connections_symmetric(),
            old(self).slots_typed(),
            old(self).nodes_shaped(),
            id < old(self).nodes().len(),
        ensures
            final(self).slots_linked(),
            final(self).connections_symmetric(),
            final(self).slots_typed(),
            final(self).nodes_shaped(),
            old(self).thinned(final(self)),
            final(self).order() == old(self).order(),
            final(self).dirty() == old(self).dirty(),
            forall|s: int|
                0 <= s < old(self).inputs().len() ==> (#[trigger] final(self).fed(s) <==> old(self).fed(
                    s,
                ) && old(self).inputs()[s].properties.parent_id != id && old(self).source_node(s)
                    != id),
    {
        let ghost pre = *self;
        proof {
            pre.lemma_thinned_start();
        }
        let mut k: usize = 0;
        while k < self.nodes[id].inputs.len()
            invariant
                self.slots_linked(),
                self.connections_symmetric(),
                self.slots_typed(),
                self.nodes_shaped(),
                pre.connections_symmetric(),
                pre.thinned(&*self),
                self.order() == pre.order(),
                self.dirty() == pre.dirty(),
                id < pre.nodes().len(),
                0 <= k <= pre.nodes()[id as int].inputs@.len(),
                forall|i: int| 0 <= i < k ==> !self.fed(#[trigger] pre.nodes()[id as int].inputs@[i] as int),
                forall|s: int|
                    0 <= s < pre.inputs().len() && pre.fed(s) && !#[trigger] self.fed(s)
                        ==> pre.inputs()[s].properties.parent_id == id,
            decreases pre.nodes()[id as int].inputs@.len() - k,
        {
            proof {
                assert(self.input_listed(id as int, k as int));
            }
            let s = self.nodes[id].inputs[k];
            if self.inputs[s].is_connected() {
                let ghost mid = *self;
                self.sever(s);
                proof {
                    pre.lemma_thinned_sever(&mid, &*self, s);
                    assert forall|x: int|
                        0 <= x < pre.inputs().len() && pre.fed(x) && !#[trigger] self.fed(
                            x,
                        ) implies pre.inputs()[x].properties.parent_id == id by {
                        if x != s {
                            assert(self.fed(x) == mid.fed(x));
                        }
                    }
                    assert forall|i: int| 0 <= i < k + 1 implies !self.fed(
                        #[trigger] pre.nodes()[id as int].inputs@[i] as int,
                    ) by {
                        let x = pre.nodes()[id as int].inputs@[i] as int;
                        assert(mid.input_listed(id as int, i));
                        if x != s {
                            assert(self.fed(x) == mid.fed(x));
                        }
                    }
                }
            }
            k = k + 1;
        }

        let mut j: usize = 0;
        while j < self.nodes[id].outputs.len()
            invariant
                self.slots_linked(),
                self.connections_symmetric(),
                self.slots_typed(),
                self.nodes_shaped(),
                pre.connections_symmetric(),
                pre.thinned(&*self),
                self.order() == pre.order(),
                self.dirty() == pre.dirty(),
                id < pre.nodes().len(),
                0 <= j <= pre.nodes()[id as int].outputs@.len(),
                forall|i: int|
                    0 <= i < pre.nodes()[id as int].inputs@.len() ==> !self.fed(
                        #[trigger] pre.nodes()[id as int].inputs@[i] as int,
                    ),
                forall|i: int|
                    0 <= i < j ==> self.outputs()[#[trigger] pre.nodes()[id as int].outputs@[i] as int].connections@.len()
                        == 0,
                forall|s: int|
                    0 <= s < pre.inputs().len() && pre.fed(s) && !#[trigger] self.fed(s) ==> (
                    pre.inputs()[s].properties.parent_id == id || pre.source_node(s) == id),
            decreases pre.nodes()[id as int].outputs@.len() - j,
        {
            proof {
                assert(self.output_listed(id as int, j as int));
            }
            let o = self.nodes[id].outputs[j];
            while self.outputs[o].connections.len() > 0
                invariant
                    self.slots_linked(),
                    self.connections_symmetric(),
                    self.slots_typed(),
                    self.nodes_shaped(),
                    pre.connections_symmetric(),
                    pre.thinned(&*self),
                    self.order() == pre.order(),
                    self.dirty() == pre.dirty(),
                    id < pre.nodes().len(),
                    0 <= j < pre.nodes()[id as int].outputs@.len(),
                    o == pre.nodes()[id as int].outputs@[j as int],
                    o < pre.outputs().len(),
                    pre.outputs()[o as int].properties.parent_id == id,
                    forall|i: int|
                        0 <= i < pre.nodes()[id as int].inputs@.len() ==> !self.fed(
                            #[trigger] pre.nodes()[id as int].inputs@[i] as int,
                        ),
                    forall|i: int|
                        0 <= i < j ==> self.outputs()[#[trigger] pre.nodes()[id as int].outputs@[i] as int].connections@.len()
                            == 0,
                    forall|s: int|
                        0 <= s < pre.inputs().len() && pre.fed(s) && !#[trigger] self.fed(s) ==> (
                        pre.inputs()[s].properties.parent_id == id || pre.source_node(s) == id),
                decreases self.outputs()[o as int].connections@.len(),
            {
                let last = self.outputs[o].connections.len() - 1;
                let c = self.outputs[o].connections[last];
                proof {
                    assert(self.output_linked(o as int, last as int));
                }
                let ghost mid = *self;
                self.sever(c);
                proof {
                    pre.lemma_thinned_sever(&mid, &*self, c);
                    lemma_first_index_of(mid.outputs()[o as int].connections@, c);
                    assert(mid.inputs()[c as int] == pre.inputs()[c as int]);
                    assert forall|x: int|
                        0 <= x < pre.inputs().len() && pre.fed(x) && !#[trigger] self.fed(
                            x,
                        ) implies (pre.inputs()[x].properties.parent_id == id || pre.source_node(x)
                        == id) by {
                        if x != c {
                            assert(self.fed(x) == mid.fed(x));
                        }
                    }
                    assert forall|i: int| 0 <= i < pre.nodes()[id as int].inputs@.len() implies !self.fed(
                        #[trigger] pre.nodes()[id as int].inputs@[i] as int,
                    ) by {
                        let x = pre.nodes()[id as int].inputs@[i] as int;
                        assert(mid.input_listed(id as int, i));
                        if x != c {
                            assert(self.fed(x) == mid.fed(x));
                        }
                    }
                    assert forall|i: int| 0 <= i < j implies self.outputs()[#[trigger] pre.nodes()[id as int].outputs@[i] as int].connections@.len()
                        == 0 by {
                        assert(mid.output_listed(id as int, i));
                        assert(mid.output_listed(id as int, j as int));
                    }
                }
            }
            j = j + 1;
        }
        proof {
            assert forall|s: int| 0 <= s < pre.inputs().len() implies (#[trigger] self.fed(s) <==> pre.fed(
                s,
            ) && pre.inputs()[s].properties.parent_id != id && pre.source_node(s) != id) by {
                if self.fed(s) {
                    assert(self.inputs()[s] == pre.inputs()[s]);
                    assert(self.input_owned(s));
                    assert(self.input_linked(s));
                    if pre.inputs()[s].properties.parent_id == id {
                        assert(!self.fed(
                            pre.nodes()[id as int].inputs@[pre.inputs()[s].index as int] as int,
                        ));
                    }
                    let o = pre.inputs()[s].connected_output.unwrap() as int;
                    assert(self.output_owned(o));
                    assert(self.outputs()[o].properties == pre.outputs()[o].properties);
                    if pre.source_node(s) == id {
                        assert(self.outputs()[pre.nodes()[id as int].outputs@[pre.outputs()[o].index as int] as int].connections@.len()
                            == 0);
                    }
                }
            }
        }
    }

    /// Takes the last input slot of node `id` out of storage. The slot that
    /// stood last in storage takes its place, and its own position, its node's
    /// list and the output that feeds it are told so.
    fn drop_last_input(&mut self, id: NodeId)
        requires
            old(self).slots_linked(),
            old(self).connections_symmetric(),
            id < old(self).nodes().len(),
            old(self).nodes()[id as int].inputs@.len() > 0,
            !old(self).fed(old(self).nodes()[id as int].inputs@.last() as int),
        ensures
            old(self).input_dropped(
                final(self),
                id as int,
                old(self).nodes()[id as int].inputs@.last() as int,
            ),
            final(self).order() == old(self).order(),
            final(self).dirty() == old(self).dirty(),
    {
        let ghost pre = *self;
        let ghost tail = pre.nodes()[id as int].inputs@.len() - 1;
        proof {
            pre.lemma_counts_bounded();
            assert(pre.input_listed(id as int, tail));
        }
        let s = match self.nodes[id].inputs.pop() {
            Some(s) => s,
            None => 0,
        };
        let last = self.inputs.len() - 1;
        self.inputs.swap_remove(s);
        if s != last {
            proof {
                assert(pre.input_owned(last as int));
                assert(pre.input_linked(last as int));
            }
            self.inputs[s].properties.id = s;
            let parent = self.inputs[s].properties.parent_id;
            let index = self.inputs[s].index as usize;
            self.nodes[parent].inputs[index] = s;
            match self.inputs[s].connected_output {
                Some(o) => {
                    let at = self.outputs[o].position_of(last);
                    self.outputs[o].connections[at] = s;
                },
                None => {},
            }
        }
        proof {
            assert forall|y: int| 0 <= y < last implies (#[trigger] self.inputs()[y]).properties.id
                == y by {
                assert(pre.input_owned(y));
            }
            assert forall|v: int| 0 <= v < pre.nodes().len() implies {
                let a = #[trigger] self.nodes()[v];
                let b = pre.nodes()[v];
                &&& a.id == b.id
                &&& a.kind == b.kind
                &&& a.outputs@ == b.outputs@
                &&& a.inputs@.len() == b.inputs@.len() - if v == id {
                    1int
                } else {
                    0int
                }
                &&& forall|k: int|
                    0 <= k < a.inputs@.len() ==> #[trigger] a.inputs@[k] == slot_after(
                        b.inputs@[k] as int,
                        s as int,
                        last as int,
                    )
            } by {
                let a = self.nodes()[v];
                let b = pre.nodes()[v];
                assert forall|k: int| 0 <= k < a.inputs@.len() implies #[trigger] a.inputs@[k]
                    == slot_after(b.inputs@[k] as int, s as int, last as int) by {
                    assert(pre.input_listed(v, k));
                    assert(pre.input_owned(last as int));
                }
            }
            assert forall|o: int| 0 <= o < pre.outputs().len() implies {
                let a = #[trigger] self.outputs()[o];
                let b = pre.outputs()[o];
                &&& a.properties == b.properties
                &&& a.index == b.index
                &&& a.value == b.value
                &&& a.connections@.len() == b.connections@.len()
                &&& forall|t: int|
                    0 <= t < a.connections@.len() ==> #[trigger] a.connections@[t] == slot_after(
                        b.connections@[t] as int,
                        s as int,
                        last as int,
                    )
            } by {
                let a = self.outputs()[o];
                let b = pre.outputs()[o];
                assert(b.connections@.no_duplicates());
                assert forall|t: int| 0 <= t < a.connections@.len() implies #[trigger] a.connections@[t]
                    == slot_after(b.connections@[t] as int, s as int, last as int) by {
                    assert(pre.output_linked(o, t));
                    if s != last {
                        assert(pre.input_linked(last as int));
                    }
                }
            }
        }
    }

    /// Takes the last output slot of node `id` out of storage. The slot that
    /// stood last in storage takes its place, and its own position, its node's
    /// list and the inputs it feeds are told so.
    fn drop_last_output(&mut self, id: NodeId)
        requires
            old(self).slots_linked(),
            old(self).connections_symmetric(),
            id < old(self).nodes().len(),
            old(self).nodes()[id as int].outputs@.len() > 0,
            old(self).outputs()[old(self).nodes()[id as int].outputs@.last() as int].connections@.len()
                == 0,
        ensures
            old(self).output_dropped(
                final(self),
                id as int,
                old(self).nodes()[id as int].outputs@.last() as int,
            ),
            final(self).order() == old(self).order(),
            final(self).dirty() == old(self).dirty(),
    {
        let ghost pre = *self;
        let ghost tail = pre.nodes()[id as int].outputs@.len() - 1;
        proof {
            pre.lemma_counts_bounded();
            assert(pre.output_listed(id as int, tail));
        }
        let o = match self.nodes[id].outputs.pop() {
            Some(o) => o,
            None => 0,
        };
        let last = self.outputs.len() - 1;
        self.outputs.swap_remove(o);
        proof {
            assert forall|x: int| 0 <= x < pre.inputs().len() implies (
            #[trigger] pre.inputs()[x].connected_output matches Some(p) ==> p != o && p <= last) by {
                assert(pre.input_linked(x));
            }
        }
        if o != last {
            proof {
                assert(pre.output_owned(last as int));
            }
            self.outputs[o].properties.id = o;
            let parent = self.outputs[o].properties.parent_id;
            let index = self.outputs[o].index as usize;
            self.nodes[parent].outputs[index] = o;
            let ghost list = pre.outputs()[last as int].connections@;
            let ghost patched = *self;
            let mut t: usize = 0;
            while t < self.outputs[o].connections.len()
                invariant
                    pre.slots_linked(),
                    pre.connections_symmetric(),
                    last == pre.outputs().len() - 1,
                    o < last,
                    self.nodes() == patched.nodes(),
                    self.outputs() == patched.outputs(),
                    self.order() == pre.order(),
                    self.dirty() == pre.dirty(),
                    self.outputs().len() == last,
                    self.outputs()[o as int].connections@ == list,
                    list == pre.outputs()[last as int].connections@,
                    self.inputs().len() == pre.inputs().len(),
                    0 <= t <= list.len(),
                    forall|x: int|
                        0 <= x < pre.inputs().len() ==> #[trigger] self.inputs()[x] == if pre.inputs()[x].connected_output
                            == Some(last) && 0 <= first_index_of(list, x as usize) < t {
                            InputField { connected_output: Some(o), ..pre.inputs()[x] }
                        } else {
                            pre.inputs()[x]
                        },
                decreases list.len() - t,
            {
                proof {
                    assert(pre.output_linked(last as int, t as int));
                    assert(list.no_duplicates());
                }
                let c = self.outputs[o].connections[t];
                let ghost mid = *self;
                self.inputs[c].connected_output = Some(o);
                proof {
                    lemma_first_index_of(list, c);
                    assert(first_index_of(list, c) == t);
                    pre.lemma_counts_bounded();
                    assert forall|x: int| 0 <= x < pre.inputs().len() implies #[trigger] self.inputs()[x]
                        == if pre.inputs()[x].connected_output == Some(last) && 0 <= first_index_of(
                        list,
                        x as usize,
                    ) < t + 1 {
                        InputField { connected_output: Some(o), ..pre.inputs()[x] }
                    } else {
                        pre.inputs()[x]
                    } by {
                        assert(mid.inputs()[x] == if pre.inputs()[x].connected_output == Some(last)
                            && 0 <= first_index_of(list, x as usize) < t {
                            InputField { connected_output: Some(o), ..pre.inputs()[x] }
                        } else {
                            pre.inputs()[x]
                        });
                        lemma_first_index_of(list, x as usize);
                    }
                }
                t = t + 1;
            }
        }
        proof {
            assert forall|y: int| 0 <= y < last implies (#[trigger] self.outputs()[y]).properties.id
                == y by {
                assert(pre.output_owned(y));
            }
            assert forall|v: int| 0 <= v < pre.nodes().len() implies {
                let a = #[trigger] self.nodes()[v];
                let b = pre.nodes()[v];
                &&& a.id == b.id
                &&& a.kind == b.kind
                &&& a.inputs@ == b.inputs@
                &&& a.outputs@.len() == b.outputs@.len() - if v == id {
                    1int
                } else {
                    0int
                }
                &&& forall|k: int|
                    0 <= k < a.outputs@.len() ==> #[trigger] a.outputs@[k] == slot_after(
                        b.outputs@[k] as int,
                        o as int,
                        last as int,
                    )
            } by {
                let a = self.nodes()[v];
                let b = pre.nodes()[v];
                assert forall|k: int| 0 <= k < a.outputs@.len() implies #[trigger] a.outputs@[k]
                    == slot_after(b.outputs@[k] as int, o as int, last as int) by {
                    assert(pre.output_listed(v, k));
                    assert(pre.output_owned(last as int));
                }
            }
            assert forall|x: int| 0 <= x < pre.inputs().len() implies #[trigger] self.inputs()[x]
                == (InputField {
                connected_output: match pre.inputs()[x].connected_output {
                    Some(p) => Some(slot_after(p as int, o as int, last as int) as usize),
                    None => None,
                },
                ..pre.inputs()[x]
            }) by {
                assert(pre.input_linked(x));
                if pre.inputs()[x].connected_output == Some(last) {
                    lemma_first_index_of(pre.outputs()[last as int].connections@, x as usize);
                }
            }
        }
    }

    /// Takes node `id`, which owns no slot, out of storage. The node that
    /// stood last takes its place, and the node and its slots are told so.
    fn drop_node(&mut self, id: NodeId)
        requires
            old(self).slots_linked(),
            id < old(self).nodes().len(),
            old(self).nodes()[id as int].inputs@.len() == 0,
            old(self).nodes()[id as int].outputs@.len() == 0,
        ensures
            old(self).node_dropped(final(self), id as int),
            final(self).order() == old(self).order(),
            final(self).dirty() == old(self).dirty(),
    {
        let ghost pre = *self;
        proof {
            pre.lemma_counts_bounded();
        }
        self.nodes.swap_remove(id);
        let ghost last = pre.nodes().len() - 1;
        if id < self.nodes.len() {
            self.nodes[id].id = id;
            let ghost moved = pre.nodes()[last];
            let ghost patched = *self;
            let mut k: usize = 0;
            while k < self.nodes[id].inputs.len()
                invariant
                    pre.slots_linked(),
                    last == pre.nodes().len() - 1,
                    id < last,
                    self.nodes() == patched.nodes(),
                    self.outputs() == pre.outputs(),
                    self.order() == pre.order(),
                    self.dirty() == pre.dirty(),
                    self.nodes().len() == last,
                    self.nodes()[id as int].inputs@ == moved.inputs@,
                    moved == pre.nodes()[last],
                    self.inputs().len() == pre.inputs().len(),
                    0 <= k <= moved.inputs@.len(),
                    forall|x: int|
                        0 <= x < pre.inputs().len() ==> #[trigger] self.inputs()[x] == if pre.inputs()[x].properties.parent_id
                            == last && pre.inputs()[x].index < k {
                            InputField {
                                properties: PinProperties {
                                    id: pre.inputs()[x].properties.id,
                                    parent_id: id,
                                },
                                ..pre.inputs()[x]
                            }
                        } else {
                            pre.inputs()[x]
                        },
                decreases moved.inputs@.len() - k,
            {
                proof {
                    assert(pre.input_listed(last, k as int));
                }
                let s = self.nodes[id].inputs[k];
                let ghost mid = *self;
                self.inputs[s].properties.parent_id = id;
                proof {
                    assert forall|x: int| 0 <= x < pre.inputs().len() implies #[trigger] self.inputs()[x]
                        == if pre.inputs()[x].properties.parent_id == last && pre.inputs()[x].index
                        < k + 1 {
                        InputField {
                            properties: PinProperties {
                                id: pre.inputs()[x].properties.id,
                                parent_id: id,
                            },
                            ..pre.inputs()[x]
                        }
                    } else {
                        pre.inputs()[x]
                    } by {
                        assert(mid.inputs()[x] == if pre.inputs()[x].properties.parent_id == last
                            && pre.inputs()[x].index < k {
                            InputField {
                                properties: PinProperties {
                                    id: pre.inputs()[x].properties.id,
                                    parent_id: id,
                                },
                                ..pre.inputs()[x]
                            }
                        } else {
                            pre.inputs()[x]
                        });
                        assert(pre.input_owned(x));
                    }
                }
                k = k + 1;
            }
            let ghost relinked = *self;
            let mut j: usize = 0;
            while j < self.nodes[id].outputs.len()
                invariant
                    pre.slots_linked(),
                    last == pre.nodes().len() - 1,
                    id < last,
                    self.nodes() == patched.nodes(),
                    self.inputs() == relinked.inputs(),
                    self.order() == pre.order(),
                    self.dirty() == pre.dirty(),
                    self.nodes().len() == last,
                    self.nodes()[id as int].outputs@ == moved.outputs@,
                    moved == pre.nodes()[last],
                    self.outputs().len() == pre.outputs().len(),
                    0 <= j <= moved.outputs@.len(),
                    forall|x: int|
                        0 <= x < pre.outputs().len() ==> {
                            let a = #[trigger] self.outputs()[x];
                            let b = pre.outputs()[x];
                            &&& a.properties.id == b.properties.id
                            &&& a.properties.parent_id == if b.properties.parent_id == last && b.index
                                < j {
                                id
                            } else {
                                b.properties.parent_id
                            }
                            &&& a.index == b.index
                            &&& a.value == b.value
                            &&& a.connections@ == b.connections@
                        },
                decreases moved.outputs@.len() - j,
            {
                proof {
                    assert(pre.output_listed(last, j as int));
                }
                let o = self.nodes[id].outputs[j];
                let ghost mid = *self;
                self.outputs[o].properties.parent_id = id;
                proof {
                    assert forall|x: int| 0 <= x < pre.outputs().len() implies {
                        let a = #[trigger] self.outputs()[x];
                        let b = pre.outputs()[x];
                        &&& a.properties.id == b.properties.id
                        &&& a.properties.parent_id == if b.properties.parent_id == last && b.index < j
                            + 1 {
                            id
                        } else {
                            b.properties.parent_id
                        }
                        &&& a.index == b.index
                        &&& a.value == b.value
                        &&& a.connections@ == b.connections@
                    } by {
                        assert(mid.outputs()[x].index == pre.outputs()[x].index);
                        assert(pre.output_owned(x));
                    }
                }
                j = j + 1;
            }
        }
        proof {
            assert forall|x: int| 0 <= x < pre.inputs().len() implies #[trigger] self.inputs()[x]
                == (InputField {
                properties: PinProperties {
                    id: pre.inputs()[x].properties.id,
                    parent_id: slot_after(
                        pre.inputs()[x].properties.parent_id as int,
                        id as int,
                        last,
                    ) as usize,
                },
                ..pre.inputs()[x]
            }) by {
                assert(pre.input_owned(x));
            }
            assert forall|o: int| 0 <= o < pre.outputs().len() implies {
                let a = #[trigger] self.outputs()[o];
                let b = pre.outputs()[o];
                &&& a.properties == (PinProperties {
                    id: b.properties.id,
                    parent_id: slot_after(b.properties.parent_id as int, id as int, last) as usize,
                })
                &&& a.index == b.index
                &&& a.value == b.value
                &&& a.connections@ == b.connections@
            } by {
                assert(pre.output_owned(o));
            }
        }
    }

    /// Removes node `node_id`. Every link into and out of the node is cut;
    /// the node and its slots leave storage, the last node and the last slots
    /// taking the freed places, with every reference to them repaired in the
    /// same call; the order becomes stale. The remaining nodes keep their
    /// kinds, values and mutual links. A refused call changes nothing.
    pub fn remove_node(&mut self, node_id: NodeId) -> (r: Result<(), GraphError>)
        requires
            old(self).wf(),
        ensures
            final(self).wf(),
            match r {
                Ok(_) => {
                    &&& node_id < old(self).nodes().len()
                    &&& final(self)@ == without_node(old(self)@, node_id as int)
                    &&& old(self).removed(final(self), node_id as int)
                    &&& final(self).nodes().len() == old(self).nodes().len() - 1
                    &&& final(self).inputs().len() == old(self).inputs().len() - old(
                        self,
                    ).nodes()[node_id as int].inputs@.len()
                    &&& final(self).outputs().len() == old(self).outputs().len() - old(
                        self,
                    ).nodes()[node_id as int].outputs@.len()
                    &&& final(self).dirty()
                    &&& final(self).order() == old(self).order()
                },
                Err(e) => {
                    &&& e == GraphError::UnknownNode
                    &&& node_id >= old(self).nodes().len()
                    &&& *final(self) == *old(self)
                },
            },
    {
        if node_id >= self.nodes.len() {
            return Err(GraphError::UnknownNode);
        }
        let ghost pre = *self;
        let ghost n = pre.nodes().len();
        self.order_dirty = true;
        proof {
            pre.lemma_wiring_carries(&*self);
        }
        self.detach_node(node_id);
        let ghost detached = *self;
        proof {
            assert forall|k: int| 0 <= k < detached.nodes()[node_id as int].inputs@.len() implies !detached.fed(
                #[trigger] detached.nodes()[node_id as int].inputs@[k] as int,
            ) by {
                assert(pre.input_listed(node_id as int, k));
            }
            assert forall|k: int| 0 <= k < detached.nodes()[node_id as int].outputs@.len() implies detached.outputs()[#[trigger] detached.nodes()[node_id as int].outputs@[k] as int].connections@.len()
                == 0 by {
                assert(detached.output_listed(node_id as int, k));
                let o = detached.nodes()[node_id as int].outputs@[k] as int;
                let list = detached.outputs()[o].connections@;
                if list.len() > 0 {
                    assert(detached.output_linked(o, 0));
                    let c = list[0] as int;
                    assert(detached.fed(c));
                    assert(pre.source_node(c) == node_id);
                }
            }
            assert forall|v: int| 0 <= v < n && v != node_id implies #[trigger] detached.node_shaped(
                v,
            ) by {}
            detached.lemma_relocated_start(node_id as int);
        }
        let ghost mut in_map: Seq<int> = Seq::new(detached.inputs().len(), |x: int| x);
        let ghost out_start: Seq<int> = Seq::new(detached.outputs().len(), |o: int| o);
        while self.nodes[node_id].inputs.len() > 0
            invariant
                detached.slots_linked(),
                detached.connections_symmetric(),
                detached.relocated(&*self, node_id as int, in_map, out_start),
                out_start == Seq::new(detached.outputs().len(), |o: int| o),
                self.nodes()[node_id as int].outputs@ == detached.nodes()[node_id as int].outputs@,
                self.outputs().len() == detached.outputs().len(),
                forall|x: int|
                    0 <= x < detached.inputs().len() && detached.inputs()[x].properties.parent_id
                        != node_id ==> detached.input_place(node_id as int, x) == position_after(
                        #[trigger] in_map[x],
                        self.nodes()[node_id as int].inputs@,
                        self.inputs().len() as int,
                    ),
                self.slots_linked(),
                self.connections_symmetric(),
                self.slots_typed(),
                self.dirty(),
                self.order() == pre.order(),
                n == pre.nodes().len(),
                self.nodes().len() == n,
                detached.nodes().len() == n,
                node_id < n,
                self.nodes()[node_id as int].inputs@.len() <= pre.nodes()[node_id as int].inputs@.len(),
                self.inputs().len() == pre.inputs().len() - (pre.nodes()[node_id as int].inputs@.len()
                    - self.nodes()[node_id as int].inputs@.len()),
                self.outputs().len() == pre.outputs().len(),
                self.nodes()[node_id as int].outputs@.len() == pre.nodes()[node_id as int].outputs@.len(),
                forall|v: int| 0 <= v < n && v != node_id ==> #[trigger] self.node_shaped(v),
                forall|v: int|
                    0 <= v < n && v != node_id ==> #[trigger] self.node_view(v) == detached.node_view(
                        v,
                    ),
                forall|k: int|
                    0 <= k < self.nodes()[node_id as int].inputs@.len() ==> !self.fed(
                        #[trigger] self.nodes()[node_id as int].inputs@[k] as int,
                    ),
                forall|k: int|
                    0 <= k < self.nodes()[node_id as int].outputs@.len() ==> self.outputs()[#[trigger] self.nodes()[node_id as int].outputs@[k] as int].connections@.len()
                        == 0,
            decreases self.nodes()[node_id as int].inputs@.len(),
        {
            let ghost mid = *self;
            let ghost s = mid.nodes()[node_id as int].inputs@.last() as int;
            proof {
                assert(mid.nodes()[node_id as int].inputs@[mid.nodes()[node_id as int].inputs@.len() - 1]
                    == s);
            }
            self.drop_last_input(node_id);
            proof {
                detached.lemma_relocated_input(&mid, &*self, node_id as int, in_map, out_start);
                let moved = Seq::new(
                    in_map.len(),
                    |x: int| slot_after(in_map[x], s, mid.inputs().len() - 1),
                );
                assert forall|x: int|
                    0 <= x < detached.inputs().len() && detached.inputs()[x].properties.parent_id
                        != node_id implies detached.input_place(node_id as int, x) == position_after(
                    #[trigger] moved[x],
                    self.nodes()[node_id as int].inputs@,
                    self.inputs().len() as int,
                ) by {
                    assert(detached.input_place(node_id as int, x) == position_after(
                        in_map[x],
                        mid.nodes()[node_id as int].inputs@,
                        mid.inputs().len() as int,
                    ));
                }
                in_map = moved;
                mid.lemma_input_dropped(&*self, node_id as int, s);
                assert forall|v: int| 0 <= v < n && v != node_id implies #[trigger] self.node_shaped(
                    v,
                ) by {
                    assert(mid.node_shaped(v));
                }
                assert forall|v: int| 0 <= v < n && v != node_id implies #[trigger] self.node_view(v)
                    == detached.node_view(v) by {
                    assert(mid.node_view(v) == detached.node_view(v));
                }
                assert forall|k: int| 0 <= k < self.nodes()[node_id as int].outputs@.len() implies self.outputs()[#[trigger] self.nodes()[node_id as int].outputs@[k] as int].connections@.len()
                    == 0 by {
                    assert(mid.output_listed(node_id as int, k));
                    let o = mid.nodes()[node_id as int].outputs@[k] as int;
                    assert(mid.outputs()[o].connections@.len() == 0);
                    assert(self.outputs()[o].connections@.len() == mid.outputs()[o].connections@.len());
                }
            }
        }
        let ghost mut out_map: Seq<int> = out_start;
        while self.nodes[node_id].outputs.len() > 0
            invariant
                detached.slots_linked(),
                detached.connections_symmetric(),
                detached.relocated(&*self, node_id as int, in_map, out_map),
                forall|x: int|
                    0 <= x < detached.inputs().len() && detached.inputs()[x].properties.parent_id
                        != node_id ==> #[trigger] in_map[x] == detached.input_place(node_id as int, x),
                forall|o: int|
                    0 <= o < detached.outputs().len() && detached.outputs()[o].properties.parent_id
                        != node_id ==> detached.output_place(node_id as int, o) == position_after(
                        #[trigger] out_map[o],
                        self.nodes()[node_id as int].outputs@,
                        self.outputs().len() as int,
                    ),
                self.slots_linked(),
                self.connections_symmetric(),
                self.slots_typed(),
                self.dirty(),
                self.order() == pre.order(),
                n == pre.nodes().len(),
                self.nodes().len() == n,
                detached.nodes().len() == n,
                node_id < n,
                self.nodes()[node_id as int].inputs@.len() == 0,
                self.inputs().len() == pre.inputs().len() - pre.nodes()[node_id as int].inputs@.len(),
                self.nodes()[node_id as int].outputs@.len() <= pre.nodes()[node_id as int].outputs@.len(),
                self.outputs().len() == pre.outputs().len() - (pre.nodes()[node_id as int].outputs@.len()
                    - self.nodes()[node_id as int].outputs@.len()),
                forall|v: int| 0 <= v < n && v != node_id ==> #[trigger] self.node_shaped(v),
                forall|v: int|
                    0 <= v < n && v != node_id ==> #[trigger] self.node_view(v) == detached.node_view(
                        v,
                    ),
                forall|k: int|
                    0 <= k < self.nodes()[node_id as int].outputs@.len() ==> self.outputs()[#[trigger] self.nodes()[node_id as int].outputs@[k] as int].connections@.len()
                        == 0,
            decreases self.nodes()[node_id as int].outputs@.len(),
        {
            let ghost mid = *self;
            let ghost o = mid.nodes()[node_id as int].outputs@.last() as int;
            proof {
                assert(mid.nodes()[node_id as int].outputs@[mid.nodes()[node_id as int].outputs@.len() - 1]
                    == o);
            }
            self.drop_last_output(node_id);
            proof {
                detached.lemma_relocated_output(&mid, &*self, node_id as int, in_map, out_map);
                let moved = Seq::new(
                    out_map.len(),
                    |p: int| slot_after(out_map[p], o, mid.outputs().len() - 1),
                );
                assert forall|p: int|
                    0 <= p < detached.outputs().len() && detached.outputs()[p].properties.parent_id
                        != node_id implies detached.output_place(node_id as int, p) == position_after(
                    #[trigger] moved[p],
                    self.nodes()[node_id as int].outputs@,
                    self.outputs().len() as int,
                ) by {
                    assert(detached.output_place(node_id as int, p) == position_after(
                        out_map[p],
                        mid.nodes()[node_id as int].outputs@,
                        mid.outputs().len() as int,
                    ));
                }
                out_map = moved;
                mid.lemma_output_dropped(&*self, node_id as int, o);
                assert forall|v: int| 0 <= v < n && v != node_id implies #[trigger] self.node_shaped(
                    v,
                ) by {
                    assert(mid.node_shaped(v));
                }
                assert forall|v: int| 0 <= v < n && v != node_id implies #[trigger] self.node_view(v)
                    == detached.node_view(v) by {
                    assert(mid.node_view(v) == detached.node_view(v));
                }
            }
        }
        let ghost bare = *self;
        self.drop_node(node_id);
        proof {
            pre.lemma_removed(&detached, &bare, &*self, node_id as int, in_map, out_map);
            bare.lemma_node_dropped(&*self, node_id as int);
            let last = n - 1;
            assert forall|y: int| 0 <= y < last implies #[trigger] self@[y] == without_node(
                pre@,
                node_id as int,
            )[y] by {
                let v = if y == node_id {
                    last
                } else {
                    y
                };
                assert(self.node_view(y) == renumbered_node(bare.node_view(v), last, node_id as int));
                assert(bare.node_view(v) == detached.node_view(v));
                pre.lemma_detached_view(&detached, node_id as int, v);
            }
            assert(self@ =~= without_node(pre@, node_id as int));
        }
        Ok(())
    }
}

} // verus!
