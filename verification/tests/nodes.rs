use dataflow_graph::engine::input_field::InputField;
use dataflow_graph::engine::node::{NodeKind, NodeProperties};
use dataflow_graph::engine::output_pin::OutputPin;
use dataflow_graph::engine::pin::PinProperties;
use dataflow_graph::nodes::constants::color::{constant_color_descriptor, constant_color_process};
use dataflow_graph::nodes::constants::number::{
    constant_number_descriptor, constant_number_process, ConstantNumberNode,
};
use dataflow_graph::nodes::constants::vector::ConstantVectorNode;
use dataflow_graph::types::color::Color;
use dataflow_graph::types::data_type::{DataType, DataValue};
use dataflow_graph::types::vector::Vec3;

fn number(x: f64) -> DataValue {
    DataValue::Number(x.to_bits())
}

#[test]
fn the_descriptor_of_the_constant_number_kind() {
    let d = NodeKind::ConstantNumber.descriptor();
    assert_eq!(d.kind, NodeKind::ConstantNumber);
    assert_eq!(d.name, "Constant Number");
    assert_eq!(d.inputs.len(), 1);
    assert_eq!(d.inputs[0].name, "Number");
    assert_eq!(d.inputs[0].data_type, DataType::Number);
    assert_eq!(d.inputs[0].default, number(0.0));
    assert_eq!(d.outputs.len(), 1);
    assert_eq!(d.outputs[0].name, "Number");
    assert_eq!(d.outputs[0].data_type, DataType::Number);
    assert_eq!(constant_number_descriptor().name, "Constant Number");
}

#[test]
fn the_descriptor_of_the_constant_color_kind() {
    let d = NodeKind::ConstantColor.descriptor();
    assert_eq!(d.kind, NodeKind::ConstantColor);
    assert_eq!(d.name, "Constant Color");
    assert_eq!(d.inputs.len(), 1);
    assert_eq!(d.inputs[0].name, "Color");
    assert_eq!(d.inputs[0].data_type, DataType::Color);
    assert_eq!(d.inputs[0].default, DataValue::Color(Color::default()));
    assert_eq!(d.outputs.len(), 1);
    assert_eq!(d.outputs[0].name, "Color");
    assert_eq!(d.outputs[0].data_type, DataType::Color);
    assert_eq!(constant_color_descriptor().name, "Constant Color");
}

#[test]
fn constant_kinds_forward_their_input() {
    let mut outputs = vec![number(0.0)];
    constant_number_process(vec![number(6.5)], &mut outputs);
    assert_eq!(outputs, vec![number(6.5)]);

    let grey = DataValue::Color(Color::splat(0.5f64.to_bits()));
    let mut outputs = vec![DataValue::Color(Color::default())];
    constant_color_process(vec![grey], &mut outputs);
    assert_eq!(outputs, vec![grey]);

    let mut outputs = vec![number(1.0)];
    NodeKind::ConstantNumber.descriptor().process(vec![number(-2.0)], &mut outputs);
    assert_eq!(outputs, vec![number(-2.0)]);
}

#[test]
fn input_field_by_itself() {
    let mut f = InputField::new(3, 7, number(1.0));
    assert_eq!(f.id(), 3);
    assert_eq!(f.get_parent_id(), 7);
    assert_eq!(f.properties, PinProperties { id: 3, parent_id: 7 });
    assert_eq!(f.index, 0);
    assert!(!f.is_connected());
    assert_eq!(f.get_connected_output(), None);
    f.set_value(number(2.0));
    assert_eq!(f.value, number(2.0));
    f.connect(5);
    assert!(f.is_connected());
    assert_eq!(f.get_connected_output(), Some(5));
    assert_eq!(f.disconnect(), 5);
    assert!(!f.is_connected());
    assert_eq!(f.value, number(2.0));
}

#[test]
fn output_pin_by_itself() {
    let mut p = OutputPin::new(2, 9);
    assert_eq!(p.id(), 2);
    assert_eq!(p.get_parent_id(), 9);
    assert_eq!(*p.value(), number(0.0));
    assert!(!p.is_connected());
    p.set_value(number(4.0));
    assert_eq!(*p.value(), number(4.0));
    p.connect(8);
    p.connect(3);
    p.connect(5);
    assert!(p.is_connected());
    assert_eq!(p.get_connected_inputs(), &vec![8, 3, 5]);
    assert_eq!(p.position_of(3), 1);
    p.disconnect(3);
    assert_eq!(p.get_connected_inputs(), &vec![8, 5]);
    p.disconnect_all();
    assert!(!p.is_connected());
    assert_eq!(*p.value(), number(4.0));
}

#[test]
fn a_free_standing_number_node() {
    let mut node = ConstantNumberNode::new(4, 5.0f64.to_bits());
    assert_eq!(*node.properties(), NodeProperties { id: 4 });
    assert_eq!(node.input_fields().len(), 1);
    assert_eq!(node.input_fields()[0], InputField::new(0, 4, number(5.0)));
    assert_eq!(node.output_pins().len(), 1);
    assert_eq!(node.output_pins()[0].get_parent_id(), 4);
    assert_eq!(*node.output_pins()[0].value(), number(0.0));
    node.process();
    assert_eq!(*node.output_pins()[0].value(), number(5.0));
    assert_eq!(node.input_fields()[0].value, number(5.0));
}

#[test]
fn a_free_standing_vector_node() {
    let v = Vec3::new(1.0f64.to_bits(), 2.0f64.to_bits(), 3.0f64.to_bits());
    let mut node = ConstantVectorNode::new(1, v);
    assert_eq!(node.properties().id, 1);
    assert_eq!(node.input_fields()[0].value, DataValue::Vector3(v));
    assert_eq!(*node.output_pins()[0].value(), number(0.0));
    node.process();
    assert_eq!(*node.output_pins()[0].value(), DataValue::Vector3(v));
}
