use dataflow_graph::engine::graph::{Graph, GraphError};
use dataflow_graph::engine::node::NodeKind;
use dataflow_graph::types::color::Color;
use dataflow_graph::types::data_type::{DataType, DataValue};

fn number(x: f64) -> DataValue {
    DataValue::Number(x.to_bits())
}

/// Every slot's node lists the slot where the slot says, and back.
fn assert_ownership(g: &Graph) {
    for n in 0..g.node_count() {
        let node = g.node(n).unwrap();
        assert_eq!(node.id, n);
        for (k, s) in node.inputs.iter().enumerate() {
            let f = g.input(*s).unwrap();
            assert_eq!(f.properties.id, *s);
            assert_eq!(f.properties.parent_id, n);
            assert_eq!(f.index as usize, k);
        }
        for (k, o) in node.outputs.iter().enumerate() {
            let p = g.output(*o).unwrap();
            assert_eq!(p.properties.id, *o);
            assert_eq!(p.properties.parent_id, n);
            assert_eq!(p.index as usize, k);
        }
    }
    for s in 0..g.input_count() {
        let f = g.input(s).unwrap();
        assert_eq!(f.properties.id, s);
        let node = g.node(f.properties.parent_id).unwrap();
        assert_eq!(node.inputs[f.index as usize], s);
    }
    for o in 0..g.output_count() {
        let p = g.output(o).unwrap();
        assert_eq!(p.properties.id, o);
        let node = g.node(p.properties.parent_id).unwrap();
        assert_eq!(node.outputs[p.index as usize], o);
    }
}

/// Every link is recorded at both ends.
fn assert_symmetry(g: &Graph) {
    for s in 0..g.input_count() {
        if let Some(o) = g.input(s).unwrap().connected_output {
            let p = g.output(o).unwrap();
            assert_eq!(p.connections.iter().filter(|c| **c == s).count(), 1);
        }
    }
    for o in 0..g.output_count() {
        for c in g.output(o).unwrap().connections.iter() {
            assert_eq!(g.input(*c).unwrap().connected_output, Some(o));
        }
    }
}

#[test]
fn a_new_graph_is_empty_and_clean() {
    let g = Graph::new();
    assert_eq!(g.node_count(), 0);
    assert_eq!(g.input_count(), 0);
    assert_eq!(g.output_count(), 0);
    assert!(g.execution_order().is_empty());
    assert!(!g.is_dirty());
}

#[test]
fn an_empty_graph_evaluates() {
    let mut g = Graph::new();
    assert_eq!(g.process(), Ok(()));
    assert!(g.execution_order().is_empty());
    assert!(!g.is_dirty());
    assert_eq!(g.sort_nodes(), Ok(()));
}

#[test]
fn add_node_allocates_slots_and_marks_dirty() {
    let mut g = Graph::new();
    assert_eq!(g.add_node(NodeKind::ConstantNumber), 0);
    assert!(g.is_dirty());
    assert_eq!(g.add_node(NodeKind::ConstantColor), 1);
    assert_eq!(g.node_count(), 2);
    assert_eq!(g.input_count(), 2);
    assert_eq!(g.output_count(), 2);

    let a = g.node(0).unwrap();
    assert_eq!(a.id, 0);
    assert_eq!(a.kind, NodeKind::ConstantNumber);
    assert_eq!(a.inputs, vec![0]);
    assert_eq!(a.outputs, vec![0]);
    let b = g.node(1).unwrap();
    assert_eq!(b.kind, NodeKind::ConstantColor);
    assert_eq!(b.inputs, vec![1]);
    assert_eq!(b.outputs, vec![1]);

    let f = g.input(0).unwrap();
    assert_eq!(f.value, number(0.0));
    assert_eq!(f.connected_output, None);
    assert_eq!(f.properties.parent_id, 0);
    assert_eq!(f.index, 0);
    let f = g.input(1).unwrap();
    assert_eq!(f.value, DataValue::Color(Color::default()));
    assert_eq!(f.properties.parent_id, 1);

    let p = g.output(0).unwrap();
    assert_eq!(p.value, DataValue::default(DataType::Number));
    assert!(p.connections.is_empty());
    let p = g.output(1).unwrap();
    assert_eq!(p.value, DataValue::default(DataType::Color));
    assert_eq!(p.properties.parent_id, 1);

    assert_ownership(&g);
    assert_symmetry(&g);
}

#[test]
fn readers_refuse_unknown_positions() {
    let mut g = Graph::new();
    g.add_node(NodeKind::ConstantNumber);
    assert!(g.node(0).is_ok());
    assert_eq!(g.node(1).err(), Some(GraphError::UnknownNode));
    assert_eq!(g.input(1).err(), Some(GraphError::UnknownPin));
    assert_eq!(g.output(1).err(), Some(GraphError::UnknownPin));
}

#[test]
fn connect_links_both_ends() {
    let mut g = Graph::new();
    let a = g.add_node(NodeKind::ConstantNumber);
    let b = g.add_node(NodeKind::ConstantNumber);
    let c = g.add_node(NodeKind::ConstantNumber);
    assert_eq!(g.process(), Ok(()));
    assert!(!g.is_dirty());

    let out_a = g.node(a).unwrap().outputs[0];
    let in_b = g.node(b).unwrap().inputs[0];
    let in_c = g.node(c).unwrap().inputs[0];
    assert_eq!(g.connect(out_a, in_b), Ok(()));
    assert!(g.is_dirty());
    assert_eq!(g.connect(out_a, in_c), Ok(()));

    assert_eq!(g.input(in_b).unwrap().connected_output, Some(out_a));
    assert_eq!(g.input(in_c).unwrap().connected_output, Some(out_a));
    assert_eq!(g.output(out_a).unwrap().connections, vec![in_b, in_c]);
    assert_ownership(&g);
    assert_symmetry(&g);
}

#[test]
fn connect_refuses_unknown_slots() {
    let mut g = Graph::new();
    g.add_node(NodeKind::ConstantNumber);
    assert_eq!(g.connect(1, 0), Err(GraphError::UnknownPin));
    assert_eq!(g.connect(0, 1), Err(GraphError::UnknownPin));
    assert_eq!(g.connect(7, 9), Err(GraphError::UnknownPin));
    assert_eq!(g.input(0).unwrap().connected_output, None);
    assert!(g.output(0).unwrap().connections.is_empty());
}

#[test]
fn connect_refuses_differing_kinds() {
    let mut g = Graph::new();
    let n = g.add_node(NodeKind::ConstantNumber);
    let c = g.add_node(NodeKind::ConstantColor);
    let out_n = g.node(n).unwrap().outputs[0];
    let in_c = g.node(c).unwrap().inputs[0];
    let out_c = g.node(c).unwrap().outputs[0];
    let in_n = g.node(n).unwrap().inputs[0];
    assert_eq!(g.connect(out_n, in_c), Err(GraphError::KindMismatch));
    assert_eq!(g.connect(out_c, in_n), Err(GraphError::KindMismatch));
    assert_eq!(g.input(in_c).unwrap().connected_output, None);
    assert_eq!(g.input(in_n).unwrap().connected_output, None);
    assert_symmetry(&g);
}

#[test]
fn connecting_a_fed_input_fails() {
    let mut g = Graph::new();
    let a = g.add_node(NodeKind::ConstantNumber);
    let b = g.add_node(NodeKind::ConstantNumber);
    let c = g.add_node(NodeKind::ConstantNumber);
    let out_a = g.node(a).unwrap().outputs[0];
    let out_c = g.node(c).unwrap().outputs[0];
    let in_b = g.node(b).unwrap().inputs[0];
    assert_eq!(g.connect(out_a, in_b), Ok(()));
    assert_eq!(g.connect(out_c, in_b), Err(GraphError::AlreadyConnected));
    assert_eq!(g.connect(out_a, in_b), Err(GraphError::AlreadyConnected));
    assert_eq!(g.input(in_b).unwrap().connected_output, Some(out_a));
    assert_eq!(g.output(out_a).unwrap().connections, vec![in_b]);
    assert!(g.output(out_c).unwrap().connections.is_empty());
    // after a disconnect the input can be fed again
    assert_eq!(g.disconnect(in_b), Ok(()));
    assert_eq!(g.connect(out_c, in_b), Ok(()));
    assert_eq!(g.input(in_b).unwrap().connected_output, Some(out_c));
    assert_symmetry(&g);
}

#[test]
fn a_differing_kind_is_reported_before_a_fed_input() {
    let mut g = Graph::new();
    let a = g.add_node(NodeKind::ConstantColor);
    let b = g.add_node(NodeKind::ConstantColor);
    let n = g.add_node(NodeKind::ConstantNumber);
    assert_eq!(g.connect(g.node(a).unwrap().outputs[0], g.node(b).unwrap().inputs[0]), Ok(()));
    assert_eq!(
        g.connect(g.node(n).unwrap().outputs[0], g.node(b).unwrap().inputs[0]),
        Err(GraphError::KindMismatch)
    );
}

#[test]
fn disconnecting_an_unfed_input_fails() {
    let mut g = Graph::new();
    g.add_node(NodeKind::ConstantNumber);
    assert_eq!(g.disconnect(0), Err(GraphError::NotConnected));
    assert_eq!(g.disconnect(1), Err(GraphError::UnknownPin));
}

#[test]
fn disconnect_cuts_both_ends_and_keeps_the_order_of_the_rest() {
    let mut g = Graph::new();
    let src = g.add_node(NodeKind::ConstantNumber);
    let out = g.node(src).unwrap().outputs[0];
    let mut ins = Vec::new();
    for _ in 0..4 {
        let n = g.add_node(NodeKind::ConstantNumber);
        let i = g.node(n).unwrap().inputs[0];
        assert_eq!(g.connect(out, i), Ok(()));
        ins.push(i);
    }
    assert_eq!(g.output(out).unwrap().connections, ins);
    assert_eq!(g.process(), Ok(()));
    assert!(!g.is_dirty());

    assert_eq!(g.disconnect(ins[1]), Ok(()));
    assert!(g.is_dirty());
    assert_eq!(g.input(ins[1]).unwrap().connected_output, None);
    assert_eq!(g.output(out).unwrap().connections, vec![ins[0], ins[2], ins[3]]);
    assert_eq!(g.disconnect(ins[1]), Err(GraphError::NotConnected));
    assert_eq!(g.disconnect(ins[3]), Ok(()));
    assert_eq!(g.output(out).unwrap().connections, vec![ins[0], ins[2]]);
    assert_ownership(&g);
    assert_symmetry(&g);
}

#[test]
fn set_input_value_checks_slot_and_kind() {
    let mut g = Graph::new();
    g.add_node(NodeKind::ConstantNumber);
    g.add_node(NodeKind::ConstantColor);
    assert_eq!(g.process(), Ok(()));
    assert_eq!(g.set_input_value(0, number(5.0)), Ok(()));
    assert!(!g.is_dirty());
    assert_eq!(g.input(0).unwrap().value, number(5.0));
    assert_eq!(g.set_input_value(0, DataValue::Boolean(true)), Err(GraphError::KindMismatch));
    assert_eq!(g.set_input_value(1, number(5.0)), Err(GraphError::KindMismatch));
    assert_eq!(g.set_input_value(2, number(5.0)), Err(GraphError::UnknownPin));
    assert_eq!(g.input(0).unwrap().value, number(5.0));
    let red = DataValue::Color(Color { r: 1.0f64.to_bits(), g: 0, b: 0, a: 1.0f64.to_bits() });
    assert_eq!(g.set_input_value(1, red), Ok(()));
    assert_eq!(g.input(1).unwrap().value, red);
}

#[test]
fn connection_symmetry_after_a_sequence() {
    let mut g = Graph::new();
    for _ in 0..5 {
        g.add_node(NodeKind::ConstantNumber);
    }
    let steps: [(usize, usize); 8] =
        [(0, 1), (0, 2), (1, 3), (2, 4), (4, 0), (3, 3), (1, 1), (2, 2)];
    for (from, to) in steps {
        let _ = g.connect(from, to);
        assert_symmetry(&g);
        assert_ownership(&g);
    }
    for s in [1, 3, 0, 2, 4, 1] {
        let _ = g.disconnect(s);
        assert_symmetry(&g);
        assert_ownership(&g);
    }
    for s in 0..g.input_count() {
        assert_eq!(g.input(s).unwrap().connected_output, None);
    }
    for o in 0..g.output_count() {
        assert!(g.output(o).unwrap().connections.is_empty());
    }
}

#[test]
fn the_field_presents_the_feeding_value() {
    let mut g = Graph::new();
    g.add_node(NodeKind::ConstantNumber);
    g.add_node(NodeKind::ConstantNumber);
    assert_eq!(g.set_input_value(0, number(3.0)), Ok(()));
    assert_eq!(g.set_input_value(1, number(8.0)), Ok(()));
    assert_eq!(g.connect(0, 1), Ok(()));
    assert_eq!(*g.input(1).unwrap().value(&g), number(0.0));
    assert_eq!(*g.input(0).unwrap().value(&g), number(3.0));
    assert_eq!(g.process(), Ok(()));
    assert_eq!(*g.input(1).unwrap().value(&g), number(3.0));
    assert_eq!(g.input(1).unwrap().value, number(8.0));
}
