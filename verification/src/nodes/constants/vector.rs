use vstd::prelude::*;
use crate::engine::input_field::InputField;
use crate::engine::node::{NodeId, NodeProperties};
use crate::engine::output_pin::OutputPin;
use crate::engine::pin::PinProperties;
use crate::types::data_type::DataValue;
use crate::types::vector::Vec3;

verus! {

/// A free-standing constant-vector node: one input field that holds the
/// vector and one output pin that repeats it once the node has run.
pub struct ConstantVectorNode {
    properties: NodeProperties,
    input_fields: Vec<InputField>,
    output_pins: Vec<OutputPin>,
}

impl ConstantVectorNode {
    pub closed spec fn id(&self) -> NodeId {
        self.properties.id
    }

    /// The field that holds the vector.
    pub closed spec fn field(&self) -> InputField {
        self.input_fields@[0]
    }

    /// The pin that repeats the vector.
    pub closed spec fn pin(&self) -> OutputPin {
        self.output_pins@[0]
    }

    /// The node has exactly one field and one pin.
    pub closed spec fn wf(&self) -> bool {
        self.input_fields@.len() == 1 && self.output_pins@.len() == 1
    }

    /// A node that holds `vector`. Its field
    /// and its pin are the first of the node, not connected, and the pin
    /// holds zero until the node runs.
    pub fn new(id: NodeId, vector: Vec3) -> (node: ConstantVectorNode)
        ensures
            node.wf(),
            node.id() == id,
            node.field() == (InputField {
                properties: PinProperties { id: 0, parent_id: id },
                index: 0,
                value: DataValue::Vector3(vector),
                connected_output: None,
            }),
            node.pin().properties == (PinProperties { id: 0, parent_id: id }),
            node.pin().index == 0,
            node.pin().value == DataValue::Number(0),
            node.pin().connections@.len() == 0,
    {
        let mut node = ConstantVectorNode {
            properties: NodeProperties { id },
            input_fields: Vec::new(),
            output_pins: Vec::new(),
        };
        node.input_fields.push(InputField::new(0, id, DataValue::Vector3(vector)));
        node.output_pins.push(OutputPin::new(0, id));
        node
    }

    pub fn properties(&self) -> (p: &NodeProperties)
        ensures
            p.id == self.id(),
    {
        &self.properties
    }

    pub fn input_fields(&self) -> (fields: &Vec<InputField>)
        requires
            self.wf(),
        ensures
            fields@ == seq![self.field()],
    {
        proof {
            assert(self.input_fields@ =~= seq![self.field()]);
        }
        &self.input_fields
    }

    pub fn output_pins(&self) -> (pins: &Vec<OutputPin>)
        requires
            self.wf(),
        ensures
            pins@.len() == 1,
            pins@[0] == self.pin(),
    {
        &self.output_pins
    }

    /// Runs the node: the pin takes the value of the field.
    pub fn process(&mut self)
        requires
            old(self).wf(),
        ensures
            final(self).wf(),
            final(self).id() == old(self).id(),
            final(self).field() == old(self).field(),
            final(self).pin().value == old(self).field().value,
            final(self).pin().properties == old(self).pin().properties,
            final(self).pin().index == old(self).pin().index,
            final(self).pin().connections == old(self).pin().connections,
    {
        let value = self.input_fields[0].value;
        self.output_pins[0].set_value(value);
    }
}

} // verus!
