use dataflow_graph::engine::graph::GraphError;
use dataflow_graph::engine::node::NodeKind;
use dataflow_graph::managers::graph_manager::GraphManager;
use dataflow_graph::types::data_type::DataValue;

#[test]
fn a_new_store_is_empty() {
    let m = GraphManager::new();
    assert_eq!(m.graph_count(), 0);
    assert_eq!(m.get_graph(0).err(), Some(GraphError::UnknownGraph));
}

#[test]
fn graphs_are_known_by_position() {
    let mut m = GraphManager::new();
    assert_eq!(m.add_graph(), 0);
    assert_eq!(m.add_graph(), 1);
    assert_eq!(m.graph_count(), 2);
    assert_eq!(m.get_graph(0).unwrap().node_count(), 0);
    assert!(!m.get_graph(1).unwrap().is_dirty());
    assert_eq!(m.get_graph(2).err(), Some(GraphError::UnknownGraph));
    assert_eq!(m.get_graph_mut(2).err(), Some(GraphError::UnknownGraph));
}

#[test]
fn graphs_of_a_store_are_independent() {
    let mut m = GraphManager::new();
    let a = m.add_graph();
    let b = m.add_graph();
    {
        let g = m.get_graph_mut(a).unwrap();
        g.add_node(NodeKind::ConstantNumber);
        g.add_node(NodeKind::ConstantNumber);
        assert_eq!(g.set_input_value(0, DataValue::Number(4.0f64.to_bits())), Ok(()));
        assert_eq!(g.connect(0, 1), Ok(()));
        assert_eq!(g.process(), Ok(()));
    }
    assert_eq!(m.get_graph(a).unwrap().node_count(), 2);
    assert_eq!(
        m.get_graph(a).unwrap().output(1).unwrap().value,
        DataValue::Number(4.0f64.to_bits())
    );
    assert_eq!(m.get_graph(b).unwrap().node_count(), 0);
    assert_eq!(m.get_graph_mut(b).unwrap().process(), Ok(()));
    assert_eq!(m.get_graph(a).unwrap().execution_order(), &vec![0, 1]);
}
