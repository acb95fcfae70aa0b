//! The graph as its users see it: nodes, and for each node its ports, with
//! every link named by node and port. Positions in slot storage do not show.

use vstd::prelude::*;
use crate::engine::graph::Graph;
use crate::engine::node::NodeKind;
use crate::types::data_type::DataValue;

verus! {

/// A port of a node: the node's position and the port's position within the
/// node's inputs or outputs.
pub struct PortRef {
    pub node: int,
    pub port: int,
}

/// An input port: its local value and the output port that feeds it, if any.
pub struct InputView {
    pub value: DataValue,
    pub source: Option<PortRef>,
}

/// An output port: its value and the input ports it feeds, in link order.
pub struct OutputView {
    pub value: DataValue,
    pub targets: Seq<PortRef>,
}

/// A node: its kind and its ports in declared order.
pub struct NodeView {
    pub kind: NodeKind,
    pub inputs: Seq<InputView>,
    pub outputs: Seq<OutputView>,
}

/// A source with links from node `id` dropped.
pub open spec fn cut_source(source: Option<PortRef>, id: int) -> Option<PortRef> {
    match source {
        Some(r) => if r.node == id {
            None
        } else {
            Some(r)
        },
        None => None,
    }
}

/// A node with every link from or to node `id` dropped; the links that stay
/// keep their order.
pub open spec fn cut_node(nv: NodeView, id: int) -> NodeView {
    NodeView {
        kind: nv.kind,
        inputs: Seq::new(
            nv.inputs.len(),
            |k: int| InputView { value: nv.inputs[k].value, source: cut_source(nv.inputs[k].source, id) },
        ),
        outputs: Seq::new(
            nv.outputs.len(),
            |k: int|
                OutputView {
                    value: nv.outputs[k].value,
                    targets: nv.outputs[k].targets.filter(|r: PortRef| r.node != id),
                },
        ),
    }
}

/// A port reference after the node at `from` has moved to `to`.
pub open spec fn moved_port(r: PortRef, from: int, to: int) -> PortRef {
    if r.node == from {
        PortRef { node: to, port: r.port }
    } else {
        r
    }
}

/// A node whose links name the node at `from` by its new position `to`.
pub open spec fn renumbered_node(nv: NodeView, from: int, to: int) -> NodeView {
    NodeView {
        kind: nv.kind,
        inputs: Seq::new(
            nv.inputs.len(),
            |k: int|
                InputView {
                    value: nv.inputs[k].value,
                    source: match nv.inputs[k].source {
                        Some(r) => Some(moved_port(r, from, to)),
                        None => None,
                    },
                },
        ),
        outputs: Seq::new(
            nv.outputs.len(),
            |k: int|
                OutputView {
                    value: nv.outputs[k].value,
                    targets: Seq::new(
                        nv.outputs[k].targets.len(),
                        |t: int| moved_port(nv.outputs[k].targets[t], from, to),
                    ),
                },
        ),
    }
}

/// The nodes that remain when node `id` leaves: its links are dropped, the
/// last node takes its position, and every link to that node follows it.
pub open spec fn without_node(nodes: Seq<NodeView>, id: int) -> Seq<NodeView> {
    let last = nodes.len() - 1;
    Seq::new(
        last as nat,
        |j: int|
            renumbered_node(
                cut_node(
                    if j == id {
                        nodes[last]
                    } else {
                        nodes[j]
                    },
                    id,
                ),
                last,
                id,
            ),
    )
}

impl Graph {
    /// The port at which input slot `s` stands.
    pub open spec fn input_port(&self, s: int) -> PortRef {
        PortRef {
            node: self.inputs()[s].properties.parent_id as int,
            port: self.inputs()[s].index as int,
        }
    }

    /// The port at which output slot `o` stands.
    pub open spec fn output_port(&self, o: int) -> PortRef {
        PortRef {
            node: self.outputs()[o].properties.parent_id as int,
            port: self.outputs()[o].index as int,
        }
    }

    /// Input slot `s` as a port: its local value and the port that feeds it.
    pub open spec fn input_view(&self, s: int) -> InputView {
        InputView {
            value: self.inputs()[s].value,
            source: match self.inputs()[s].connected_output {
                Some(o) => Some(self.output_port(o as int)),
                None => None,
            },
        }
    }

    /// Output slot `o` as a port: its value and the ports it feeds.
    pub open spec fn output_view(&self, o: int) -> OutputView {
        OutputView {
            value: self.outputs()[o].value,
            targets: Seq::new(
                self.outputs()[o].connections@.len(),
                |t: int| self.input_port(self.outputs()[o].connections@[t] as int),
            ),
        }
    }

    /// Node `v` with its ports.
    pub open spec fn node_view(&self, v: int) -> NodeView {
        NodeView {
            kind: self.nodes()[v].kind,
            inputs: Seq::new(
                self.nodes()[v].inputs@.len(),
                |k: int| self.input_view(self.nodes()[v].inputs@[k] as int),
            ),
            outputs: Seq::new(
                self.nodes()[v].outputs@.len(),
                |k: int| self.output_view(self.nodes()[v].outputs@[k] as int),
            ),
        }
    }
}

impl View for Graph {
    type V = Seq<NodeView>;

    /// The nodes of the graph with their ports and links.
    open spec fn view(&self) -> Seq<NodeView> {
        Seq::new(self.nodes().len(), |v: int| self.node_view(v))
    }
}

} // verus!
