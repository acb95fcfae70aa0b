use dataflow_graph::engine::graph::{Graph, GraphError};
use dataflow_graph::engine::node::NodeKind;
use dataflow_graph::types::color::Color;
use dataflow_graph::types::data_type::DataValue;

fn number(x: f64) -> DataValue {
    DataValue::Number(x.to_bits())
}

fn link(g: &mut Graph, from: usize, to: usize) -> Result<(), GraphError> {
    let o = g.node(from).unwrap().outputs[0];
    let i = g.node(to).unwrap().inputs[0];
    g.connect(o, i)
}

/// The value held by the only input of node `n`.
fn seed_of(g: &Graph, n: usize) -> DataValue {
    g.input(g.node(n).unwrap().inputs[0]).unwrap().value
}

/// The node that feeds the only input of node `n`, if any.
fn source_of(g: &Graph, n: usize) -> Option<usize> {
    g.input(g.node(n).unwrap().inputs[0])
        .unwrap()
        .connected_output
        .map(|o| g.output(o).unwrap().properties.parent_id)
}

/// The nodes that the only output of node `n` feeds, in link order.
fn targets_of(g: &Graph, n: usize) -> Vec<usize> {
    g.output(g.node(n).unwrap().outputs[0])
        .unwrap()
        .connections
        .iter()
        .map(|c| g.input(*c).unwrap().properties.parent_id)
        .collect()
}

fn assert_integrity(g: &Graph) {
    assert_eq!(g.input_count(), g.node_count());
    assert_eq!(g.output_count(), g.node_count());
    for n in 0..g.node_count() {
        let node = g.node(n).unwrap();
        assert_eq!(node.id, n);
        assert_eq!(node.inputs.len(), 1);
        assert_eq!(node.outputs.len(), 1);
        for (k, s) in node.inputs.iter().enumerate() {
            let f = g.input(*s).unwrap();
            assert_eq!((f.properties.id, f.properties.parent_id, f.index as usize), (*s, n, k));
        }
        for (k, o) in node.outputs.iter().enumerate() {
            let p = g.output(*o).unwrap();
            assert_eq!((p.properties.id, p.properties.parent_id, p.index as usize), (*o, n, k));
        }
    }
    for s in 0..g.input_count() {
        let f = g.input(s).unwrap();
        assert_eq!(f.properties.id, s);
        assert_eq!(g.node(f.properties.parent_id).unwrap().inputs[f.index as usize], s);
        if let Some(o) = f.connected_output {
            assert_eq!(g.output(o).unwrap().connections.iter().filter(|c| **c == s).count(), 1);
        }
    }
    for o in 0..g.output_count() {
        let p = g.output(o).unwrap();
        assert_eq!(p.properties.id, o);
        assert_eq!(g.node(p.properties.parent_id).unwrap().outputs[p.index as usize], o);
        for c in p.connections.iter() {
            assert_eq!(g.input(*c).unwrap().connected_output, Some(o));
        }
    }
}

#[test]
fn removing_an_unknown_node_fails() {
    let mut g = Graph::new();
    assert_eq!(g.remove_node(0), Err(GraphError::UnknownNode));
    g.add_node(NodeKind::ConstantNumber);
    assert_eq!(g.process(), Ok(()));
    assert_eq!(g.remove_node(1), Err(GraphError::UnknownNode));
    assert_eq!(g.node_count(), 1);
    assert!(!g.is_dirty());
}

#[test]
fn removing_the_only_node_empties_the_graph() {
    let mut g = Graph::new();
    g.add_node(NodeKind::ConstantColor);
    assert_eq!(g.process(), Ok(()));
    assert_eq!(g.remove_node(0), Ok(()));
    assert!(g.is_dirty());
    assert_eq!(g.node_count(), 0);
    assert_eq!(g.input_count(), 0);
    assert_eq!(g.output_count(), 0);
    assert_eq!(g.process(), Ok(()));
    assert!(g.execution_order().is_empty());
}

#[test]
fn removing_the_last_node_moves_nothing() {
    let mut g = Graph::new();
    for x in [1.0, 2.0, 3.0] {
        let n = g.add_node(NodeKind::ConstantNumber);
        assert_eq!(g.set_input_value(n, number(x)), Ok(()));
    }
    assert_eq!(link(&mut g, 0, 1), Ok(()));
    assert_eq!(link(&mut g, 1, 2), Ok(()));
    assert_eq!(g.remove_node(2), Ok(()));
    assert_eq!(g.node_count(), 2);
    assert_integrity(&g);
    assert_eq!(seed_of(&g, 0), number(1.0));
    assert_eq!(seed_of(&g, 1), number(2.0));
    assert_eq!(source_of(&g, 1), Some(0));
    assert_eq!(targets_of(&g, 0), vec![1]);
    assert!(targets_of(&g, 1).is_empty());
}

#[test]
fn the_last_node_and_its_slots_take_the_freed_places() {
    let mut g = Graph::new();
    for x in [10.0, 11.0, 12.0] {
        let n = g.add_node(NodeKind::ConstantNumber);
        assert_eq!(g.set_input_value(n, number(x)), Ok(()));
    }
    // 0 -> 1 -> 2
    assert_eq!(link(&mut g, 0, 1), Ok(()));
    assert_eq!(link(&mut g, 1, 2), Ok(()));
    assert_eq!(g.process(), Ok(()));
    assert_eq!(g.execution_order(), &vec![0, 1, 2]);

    assert_eq!(g.remove_node(0), Ok(()));
    assert!(g.is_dirty());
    assert_eq!(g.node_count(), 2);
    assert_integrity(&g);

    // the node that stood last stands at 0, with its slots at 0
    let moved = g.node(0).unwrap();
    assert_eq!(moved.kind, NodeKind::ConstantNumber);
    assert_eq!(moved.inputs, vec![0]);
    assert_eq!(moved.outputs, vec![0]);
    assert_eq!(seed_of(&g, 0), number(12.0));
    assert_eq!(seed_of(&g, 1), number(11.0));
    // the link from the removed node is gone, the other one follows the move
    assert_eq!(source_of(&g, 1), None);
    assert_eq!(source_of(&g, 0), Some(1));
    assert_eq!(targets_of(&g, 1), vec![0]);
    assert!(targets_of(&g, 0).is_empty());
    assert_eq!(g.input(0).unwrap().connected_output, Some(1));
    assert_eq!(g.output(1).unwrap().connections, vec![0]);

    assert_eq!(g.process(), Ok(()));
    assert_eq!(g.execution_order(), &vec![1, 0]);
    assert_eq!(g.output(0).unwrap().value, number(11.0));
    assert_eq!(g.output(1).unwrap().value, number(11.0));
}

#[test]
fn removing_the_middle_of_a_chain_cuts_both_links() {
    let mut g = Graph::new();
    for x in [1.0, 2.0, 3.0, 4.0] {
        let n = g.add_node(NodeKind::ConstantNumber);
        assert_eq!(g.set_input_value(n, number(x)), Ok(()));
    }
    assert_eq!(link(&mut g, 0, 1), Ok(()));
    assert_eq!(link(&mut g, 1, 2), Ok(()));
    assert_eq!(link(&mut g, 2, 3), Ok(()));
    assert_eq!(g.remove_node(1), Ok(()));
    assert_integrity(&g);
    assert_eq!(g.node_count(), 3);
    // old 3 stands at 1
    assert_eq!(seed_of(&g, 0), number(1.0));
    assert_eq!(seed_of(&g, 1), number(4.0));
    assert_eq!(seed_of(&g, 2), number(3.0));
    assert_eq!(source_of(&g, 0), None);
    assert_eq!(source_of(&g, 2), None);
    assert_eq!(source_of(&g, 1), Some(2));
    assert!(targets_of(&g, 0).is_empty());
    assert_eq!(targets_of(&g, 2), vec![1]);
    assert_eq!(g.process(), Ok(()));
    assert_eq!(g.execution_order(), &vec![0, 2, 1]);
    assert_eq!(g.output(g.node(1).unwrap().outputs[0]).unwrap().value, number(3.0));
}

#[test]
fn removing_a_hub_cuts_its_fan_out_and_keeps_the_order_of_other_links() {
    let mut g = Graph::new();
    for _ in 0..6 {
        g.add_node(NodeKind::ConstantNumber);
    }
    // 0 feeds 1, 2; 5 feeds 3, 4
    assert_eq!(link(&mut g, 0, 1), Ok(()));
    assert_eq!(link(&mut g, 0, 2), Ok(()));
    assert_eq!(link(&mut g, 5, 3), Ok(()));
    assert_eq!(link(&mut g, 5, 4), Ok(()));
    assert_eq!(g.remove_node(0), Ok(()));
    assert_integrity(&g);
    assert_eq!(g.node_count(), 5);
    // old 5 stands at 0 and still feeds 3 and 4 in that order
    assert_eq!(targets_of(&g, 0), vec![3, 4]);
    assert_eq!(source_of(&g, 1), None);
    assert_eq!(source_of(&g, 2), None);
    assert_eq!(source_of(&g, 3), Some(0));
    assert_eq!(source_of(&g, 4), Some(0));
}

#[test]
fn removing_a_node_that_feeds_itself() {
    let mut g = Graph::new();
    for _ in 0..2 {
        g.add_node(NodeKind::ConstantNumber);
    }
    assert_eq!(link(&mut g, 0, 0), Ok(()));
    assert_eq!(link(&mut g, 0, 1), Ok(()));
    assert_eq!(g.process(), Err(GraphError::CycleDetected));
    assert_eq!(g.remove_node(0), Ok(()));
    assert_integrity(&g);
    assert_eq!(g.node_count(), 1);
    assert_eq!(source_of(&g, 0), None);
    assert_eq!(g.process(), Ok(()));
    assert_eq!(g.execution_order(), &vec![0]);
}

#[test]
fn kinds_and_values_survive_the_move() {
    let mut g = Graph::new();
    g.add_node(NodeKind::ConstantNumber);
    g.add_node(NodeKind::ConstantNumber);
    let c = g.add_node(NodeKind::ConstantColor);
    let red = DataValue::Color(Color { r: 1.0f64.to_bits(), g: 0, b: 0, a: 1.0f64.to_bits() });
    assert_eq!(g.set_input_value(g.node(c).unwrap().inputs[0], red), Ok(()));
    assert_eq!(g.process(), Ok(()));
    assert_eq!(g.remove_node(0), Ok(()));
    assert_integrity(&g);
    assert_eq!(g.node(0).unwrap().kind, NodeKind::ConstantColor);
    assert_eq!(g.node(1).unwrap().kind, NodeKind::ConstantNumber);
    assert_eq!(seed_of(&g, 0), red);
    assert_eq!(g.output(g.node(0).unwrap().outputs[0]).unwrap().value, red);
    // slots of differing kinds still cannot be linked
    assert_eq!(link(&mut g, 0, 1), Err(GraphError::KindMismatch));
}

#[test]
fn removal_integrity_after_a_sequence() {
    let mut g = Graph::new();
    let mut next = 0.0;
    let script: [Option<usize>; 14] = [
        None,
        None,
        None,
        None,
        Some(1),
        None,
        Some(0),
        Some(3),
        None,
        None,
        Some(2),
        Some(0),
        Some(9),
        Some(1),
    ];
    for (step, action) in script.iter().enumerate() {
        match action {
            None => {
                let kind =
                    if step % 3 == 0 { NodeKind::ConstantColor } else { NodeKind::ConstantNumber };
                let n = g.add_node(kind);
                if kind == NodeKind::ConstantNumber {
                    next += 1.0;
                    assert_eq!(g.set_input_value(g.node(n).unwrap().inputs[0], number(next)), Ok(()));
                }
                // link the new node to whatever accepts it
                for other in 0..n {
                    let _ = link(&mut g, other, n);
                    let _ = link(&mut g, n, other);
                }
            }
            Some(id) => {
                let before = g.node_count();
                let r = g.remove_node(*id);
                if *id < before {
                    assert_eq!(r, Ok(()));
                    assert_eq!(g.node_count(), before - 1);
                } else {
                    assert_eq!(r, Err(GraphError::UnknownNode));
                    assert_eq!(g.node_count(), before);
                }
            }
        }
        assert_integrity(&g);
    }
}
