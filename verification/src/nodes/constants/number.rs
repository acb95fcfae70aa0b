use vstd::prelude::*;
use crate::engine::input_field::InputField;
use crate::engine::node::{InputDesc, NodeDescriptor, NodeId, NodeKind, NodeProperties, OutputDesc};
use crate::engine::output_pin::OutputPin;
use crate::engine::pin::PinProperties;
use crate::types::data_type::{DataType, DataValue};

verus! {

/// Forwards the input number to the output.
pub fn constant_number_process(inputs: Vec<DataValue>, outputs: &mut Vec<DataValue>)
    requires
        NodeKind::ConstantNumber.accepts(inputs@),
        NodeKind::ConstantNumber.yields(old(outputs)@),
    ensures
        final(outputs)@ == NodeKind::ConstantNumber.transform(inputs@),
{
    assert(inputs@[0].kind_spec() == NodeKind::ConstantNumber.input_kinds()[0]);
    let input_number = match inputs[0] {
        DataValue::Number(number) => number,
        _ => 0,
    };
    outputs[0] = DataValue::Number(input_number);
    assert(outputs@ =~= NodeKind::ConstantNumber.transform(inputs@));
}

/// The shape of the constant-number kind: one number in, one number out.
pub fn constant_number_descriptor() -> (d: NodeDescriptor)
    ensures
        d.describes(NodeKind::ConstantNumber),
{
    let mut inputs: Vec<InputDesc> = Vec::new();
    inputs.push(
        InputDesc { name: "Number", data_type: DataType::Number, default: DataValue::Number(0) },
    );
    let mut outputs: Vec<OutputDesc> = Vec::new();
    outputs.push(OutputDesc { name: "Number", data_type: DataType::Number });
    NodeDescriptor { kind: NodeKind::ConstantNumber, name: "Constant Number", inputs, outputs }
}

} // verus!

verus! {

/// A free-standing constant-number node: one input field that holds the
/// number and one output pin that repeats it once the node has run.
pub struct ConstantNumberNode {
    properties: NodeProperties,
    input_fields: Vec<InputField>,
    output_pins: Vec<OutputPin>,
}

impl ConstantNumberNode {
    pub closed spec fn id(&self) -> NodeId {
        self.properties.id
    }

    /// The field that holds the number.
    pub closed spec fn field(&self) -> InputField {
        self.input_fields@[0]
    }

    /// The pin that repeats the number.
    pub closed spec fn pin(&self) -> OutputPin {
        self.output_pins@[0]
    }

    /// The node has exactly one field and one pin.
    pub closed spec fn wf(&self) -> bool {
        self.input_fields@.len() == 1 && self.output_pins@.len() == 1
    }

    /// A node that holds `number`, given as a binary64 bit pattern. Its field
    /// and its pin are the first of the node, not connected, and the pin
    /// holds zero until the node runs.
    pub fn new(id: NodeId, number: u64) -> (node: ConstantNumberNode)
        ensures
            node.wf(),
            node.id() == id,
            node.field() == (InputField {
                properties: PinProperties { id: 0, parent_id: id },
                index: 0,
                value: DataValue::Number(number),
                connected_output: None,
            }),
            node.pin().properties == (PinProperties { id: 0, parent_id: id }),
            node.pin().index == 0,
            node.pin().value == DataValue::Number(0),
            node.pin().connections@.len() == 0,
    {
        let mut node = ConstantNumberNode {
            properties: NodeProperties { id },
            input_fields: Vec::new(),
            output_pins: Vec::new(),
        };
        node.input_fields.push(InputField::new(0, id, DataValue::Number(number)));
        node.output_pins.push(OutputPin::new(0, id));
        node
    }

    pub fn properties(&self) -> (p: &NodeProperties)
        ensures
            p.id == self.id(),
    {
        &self.properties
    }

    pub fn input_fields(&self) -> (fields: &Vec<InputField>)
        requires
            self.wf(),
        ensures
            fields@ == seq![self.field()],
    {
        proof {
            assert(self.input_fields@ =~= seq![self.field()]);
        }
        &self.input_fields
    }

    pub fn output_pins(&self) -> (pins: &Vec<OutputPin>)
        requires
            self.wf(),
        ensures
            pins@.len() == 1,
            pins@[0] == self.pin(),
    {
        &self.output_pins
    }

    /// Runs the node: the pin takes the value of the field.
    pub fn process(&mut self)
        requires
            old(self).wf(),
        ensures
            final(self).wf(),
            final(self).id() == old(self).id(),
            final(self).field() == old(self).field(),
            final(self).pin().value == old(self).field().value,
            final(self).pin().properties == old(self).pin().properties,
            final(self).pin().index == old(self).pin().index,
            final(self).pin().connections == old(self).pin().connections,
    {
        let value = self.input_fields[0].value;
        self.output_pins[0].set_value(value);
    }
}

} // verus!
