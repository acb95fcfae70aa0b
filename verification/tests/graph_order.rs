use dataflow_graph::engine::graph::{Graph, GraphError};
use dataflow_graph::engine::node::NodeKind;
use dataflow_graph::types::color::Color;
use dataflow_graph::types::data_type::DataValue;

fn number(x: f64) -> DataValue {
    DataValue::Number(x.to_bits())
}

fn numbers(g: &mut Graph, count: usize) {
    for _ in 0..count {
        g.add_node(NodeKind::ConstantNumber);
    }
}

/// Links the only output of node `from` to the only input of node `to`.
fn link(g: &mut Graph, from: usize, to: usize) -> Result<(), GraphError> {
    let o = g.node(from).unwrap().outputs[0];
    let i = g.node(to).unwrap().inputs[0];
    g.connect(o, i)
}

/// Every producer stands before its consumers, and every node is listed once.
fn assert_topological(g: &Graph) {
    let order = g.execution_order();
    assert_eq!(order.len(), g.node_count());
    let mut position = vec![usize::MAX; g.node_count()];
    for (p, n) in order.iter().enumerate() {
        assert_eq!(position[*n], usize::MAX);
        position[*n] = p;
    }
    for s in 0..g.input_count() {
        let f = g.input(s).unwrap();
        if let Some(o) = f.connected_output {
            let a = g.output(o).unwrap().properties.parent_id;
            let b = f.properties.parent_id;
            assert!(position[a] < position[b]);
        }
    }
}

#[test]
fn value_propagation() {
    let mut g = Graph::new();
    let a = g.add_node(NodeKind::ConstantNumber);
    assert_eq!(g.set_input_value(g.node(a).unwrap().inputs[0], number(5.0)), Ok(()));
    let b = g.add_node(NodeKind::ConstantNumber);
    assert_eq!(g.input(g.node(b).unwrap().inputs[0]).unwrap().value, number(0.0));

    assert_eq!(link(&mut g, a, b), Ok(()));
    assert_eq!(g.process(), Ok(()));
    let out_b = g.node(b).unwrap().outputs[0];
    assert_eq!(g.output(out_b).unwrap().value, number(5.0));
    assert_eq!(g.output(g.node(a).unwrap().outputs[0]).unwrap().value, number(5.0));

    assert_eq!(g.disconnect(g.node(b).unwrap().inputs[0]), Ok(()));
    assert_eq!(g.process(), Ok(()));
    assert_eq!(g.output(out_b).unwrap().value, number(0.0));
}

#[test]
fn values_travel_along_a_chain_in_one_pass() {
    let mut g = Graph::new();
    numbers(&mut g, 4);
    // 3 -> 1 -> 0 -> 2
    assert_eq!(link(&mut g, 3, 1), Ok(()));
    assert_eq!(link(&mut g, 1, 0), Ok(()));
    assert_eq!(link(&mut g, 0, 2), Ok(()));
    assert_eq!(g.set_input_value(g.node(3).unwrap().inputs[0], number(42.5)), Ok(()));
    assert_eq!(g.process(), Ok(()));
    assert_eq!(g.execution_order(), &vec![3, 1, 0, 2]);
    for n in 0..4 {
        assert_eq!(g.output(g.node(n).unwrap().outputs[0]).unwrap().value, number(42.5));
    }
    assert_topological(&g);
}

#[test]
fn colors_travel_too() {
    let mut g = Graph::new();
    let a = g.add_node(NodeKind::ConstantColor);
    let b = g.add_node(NodeKind::ConstantColor);
    let teal = DataValue::Color(Color {
        r: 0.0f64.to_bits(),
        g: 0.5f64.to_bits(),
        b: 0.5f64.to_bits(),
        a: 1.0f64.to_bits(),
    });
    assert_eq!(g.set_input_value(g.node(a).unwrap().inputs[0], teal), Ok(()));
    assert_eq!(link(&mut g, a, b), Ok(()));
    assert_eq!(g.process(), Ok(()));
    assert_eq!(g.output(g.node(b).unwrap().outputs[0]).unwrap().value, teal);
}

#[test]
fn unlinked_nodes_run_in_ascending_order() {
    let mut g = Graph::new();
    numbers(&mut g, 5);
    assert_eq!(g.sort_nodes(), Ok(()));
    assert_eq!(g.execution_order(), &vec![0, 1, 2, 3, 4]);
    assert!(!g.is_dirty());
}

#[test]
fn ties_are_broken_by_position_and_by_link_order() {
    let mut g = Graph::new();
    numbers(&mut g, 6);
    // 5 feeds 3, 1 and 0, in that order; 2 feeds 4.
    assert_eq!(link(&mut g, 5, 3), Ok(()));
    assert_eq!(link(&mut g, 5, 1), Ok(()));
    assert_eq!(link(&mut g, 5, 0), Ok(()));
    assert_eq!(link(&mut g, 2, 4), Ok(()));
    assert_eq!(g.sort_nodes(), Ok(()));
    // seeds 2 and 5 ascending; 2 releases 4; 5 releases 3, 1, 0
    assert_eq!(g.execution_order(), &vec![2, 5, 4, 3, 1, 0]);
    assert_topological(&g);
}

#[test]
fn a_producer_added_last_still_runs_first() {
    let mut g = Graph::new();
    numbers(&mut g, 3);
    assert_eq!(link(&mut g, 2, 0), Ok(()));
    assert_eq!(g.process(), Ok(()));
    assert_eq!(g.execution_order(), &vec![1, 2, 0]);
    assert_topological(&g);
}

#[test]
fn topological_validity_on_a_wider_graph() {
    let mut g = Graph::new();
    numbers(&mut g, 9);
    let links: [(usize, usize); 8] =
        [(8, 0), (0, 4), (4, 2), (7, 1), (7, 3), (3, 5), (1, 6), (7, 8)];
    for (from, to) in links {
        assert_eq!(link(&mut g, from, to), Ok(()));
    }
    assert_eq!(g.process(), Ok(()));
    assert_topological(&g);
    assert_eq!(g.execution_order(), &vec![7, 1, 3, 8, 6, 5, 0, 4, 2]);
}

#[test]
fn a_cycle_is_rejected_and_the_cached_order_kept() {
    let mut g = Graph::new();
    numbers(&mut g, 3);
    assert_eq!(link(&mut g, 0, 1), Ok(()));
    assert_eq!(link(&mut g, 1, 2), Ok(()));
    assert_eq!(g.set_input_value(g.node(0).unwrap().inputs[0], number(2.0)), Ok(()));
    assert_eq!(g.process(), Ok(()));
    assert_eq!(g.execution_order(), &vec![0, 1, 2]);
    assert!(!g.is_dirty());

    // feed the last node back into the first
    assert_eq!(link(&mut g, 2, 0), Ok(()));
    assert!(g.is_dirty());
    assert_eq!(g.process(), Err(GraphError::CycleDetected));
    assert_eq!(g.execution_order(), &vec![0, 1, 2]);
    assert!(g.is_dirty());
    assert_eq!(g.sort_nodes(), Err(GraphError::CycleDetected));
    assert_eq!(g.execution_order(), &vec![0, 1, 2]);
    // nothing was evaluated
    for n in 0..3 {
        assert_eq!(g.output(g.node(n).unwrap().outputs[0]).unwrap().value, number(2.0));
    }

    // cutting the cycle makes the graph evaluate again
    assert_eq!(g.disconnect(g.node(0).unwrap().inputs[0]), Ok(()));
    assert_eq!(g.process(), Ok(()));
    assert_eq!(g.execution_order(), &vec![0, 1, 2]);
    assert!(!g.is_dirty());
}

#[test]
fn a_node_feeding_itself_is_a_cycle() {
    let mut g = Graph::new();
    numbers(&mut g, 2);
    assert_eq!(link(&mut g, 1, 1), Ok(()));
    assert_eq!(g.process(), Err(GraphError::CycleDetected));
    assert!(g.execution_order().is_empty());
    assert!(g.is_dirty());
}

#[test]
fn a_cycle_behind_an_acyclic_part_is_found() {
    let mut g = Graph::new();
    numbers(&mut g, 5);
    assert_eq!(link(&mut g, 0, 1), Ok(()));
    assert_eq!(link(&mut g, 2, 3), Ok(()));
    assert_eq!(link(&mut g, 3, 4), Ok(()));
    assert_eq!(link(&mut g, 4, 2), Ok(()));
    assert_eq!(g.process(), Err(GraphError::CycleDetected));
}

#[test]
fn evaluation_is_a_full_pass_every_time() {
    let mut g = Graph::new();
    numbers(&mut g, 2);
    assert_eq!(link(&mut g, 0, 1), Ok(()));
    assert_eq!(g.set_input_value(0, number(1.0)), Ok(()));
    assert_eq!(g.process(), Ok(()));
    assert_eq!(g.output(1).unwrap().value, number(1.0));
    // a new value needs no new order, and reaches every node on the next pass
    assert_eq!(g.set_input_value(0, number(9.0)), Ok(()));
    assert!(!g.is_dirty());
    assert_eq!(g.process(), Ok(()));
    assert_eq!(g.output(0).unwrap().value, number(9.0));
    assert_eq!(g.output(1).unwrap().value, number(9.0));
}

#[test]
fn fan_out_reaches_every_consumer() {
    let mut g = Graph::new();
    numbers(&mut g, 4);
    for to in 1..4 {
        assert_eq!(link(&mut g, 0, to), Ok(()));
    }
    assert_eq!(g.set_input_value(0, number(-3.5)), Ok(()));
    assert_eq!(g.process(), Ok(()));
    assert_eq!(g.execution_order(), &vec![0, 1, 2, 3]);
    for n in 0..4 {
        assert_eq!(g.output(n).unwrap().value, number(-3.5));
    }
}
