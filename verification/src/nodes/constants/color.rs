use vstd::prelude::*;
use crate::engine::node::{InputDesc, NodeDescriptor, NodeKind, OutputDesc};
use crate::types::color::Color;
use crate::types::data_type::{DataType, DataValue};

verus! {

/// Forwards the input color to the output.
pub fn constant_color_process(inputs: Vec<DataValue>, outputs: &mut Vec<DataValue>)
    requires
        NodeKind::ConstantColor.accepts(inputs@),
        NodeKind::ConstantColor.yields(old(outputs)@),
    ensures
        final(outputs)@ == NodeKind::ConstantColor.transform(inputs@),
{
    assert(inputs@[0].kind_spec() == NodeKind::ConstantColor.input_kinds()[0]);
    let input_color = match inputs[0] {
        DataValue::Color(color) => color,
        _ => Color::default(),
    };
    outputs[0] = DataValue::Color(input_color);
    assert(outputs@ =~= NodeKind::ConstantColor.transform(inputs@));
}

/// The shape of the constant-color kind: one color in, one color out.
pub fn constant_color_descriptor() -> (d: NodeDescriptor)
    ensures
        d.describes(NodeKind::ConstantColor),
{
    let mut inputs: Vec<InputDesc> = Vec::new();
    inputs.push(
        InputDesc {
            name: "Color",
            data_type: DataType::Color,
            default: DataValue::Color(Color::default()),
        },
    );
    let mut outputs: Vec<OutputDesc> = Vec::new();
    outputs.push(OutputDesc { name: "Color", data_type: DataType::Color });
    NodeDescriptor { kind: NodeKind::ConstantColor, name: "Constant Color", inputs, outputs }
}

} // verus!
