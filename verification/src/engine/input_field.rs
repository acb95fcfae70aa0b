use vstd::prelude::*;
use crate::engine::graph::Graph;
use crate::engine::node::NodeId;
use crate::engine::output_pin::OutputId;
use crate::engine::pin::PinProperties;
use crate::types::data_type::DataValue;

verus! {

pub type InputId = usize;

/// A typed receiver on a node. It holds a local value, used while no output
/// feeds it, and the output that feeds it, if any.
#[derive(Clone, Copy, Debug, PartialEq, Eq, Structural)]
pub struct InputField {
    pub properties: PinProperties,
    /// Position within the owning node's input list.
    pub index: u8,
    pub value: DataValue,
    pub connected_output: Option<OutputId>,
}

impl InputField {
    /// An unconnected field at the first position of its node.
    pub fn new(id: InputId, parent_id: NodeId, value: DataValue) -> (f: InputField)
        ensures
            f == (InputField {
                properties: PinProperties { id, parent_id },
                index: 0,
                value,
                connected_output: None,
            }),
    {
        InputField { properties: PinProperties { id, parent_id }, index: 0, value, connected_output: None }
    }

    pub fn id(&self) -> (id: InputId)
        ensures
            id == self.properties.id,
    {
        self.properties.id
    }

    pub fn get_parent_id(&self) -> (id: NodeId)
        ensures
            id == self.properties.parent_id,
    {
        self.properties.parent_id
    }

    /// The value that the field presents in `graph`: the value of the output
    /// that feeds it, or its local value if none does.
    pub fn value<'a>(&'a self, graph: &'a Graph) -> (v: &'a DataValue)
        requires
            self.connected_output matches Some(o) ==> o < graph.outputs().len(),
        ensures
            *v == match self.connected_output {
                Some(o) => graph.outputs()[o as int].value,
                None => self.value,
            },
    {
        match self.connected_output {
            Some(pin) => match graph.output(pin) {
                Ok(output) => output.value(),
                Err(_) => &self.value,
            },
            None => &self.value,
        }
    }

    /// Replaces the local value; the connection is left as it is.
    pub fn set_value(&mut self, value: DataValue)
        ensures
            *final(self) == (InputField { value, ..*old(self) }),
    {
        self.value = value
    }

    pub fn is_connected(&self) -> (b: bool)
        ensures
            b == self.connected_output.is_some(),
    {
        match self.connected_output {
            Some(_) => true,
            None => false,
        }
    }

    pub fn get_connected_output(&self) -> (o: Option<OutputId>)
        ensures
            o == self.connected_output,
    {
        match self.connected_output {
            Some(pin) => Some(pin),
            None => None,
        }
    }

    /// Records `pin` as the feeding output. Only this side of the link is
    /// written.
    pub fn connect(&mut self, pin: OutputId)
        ensures
            *final(self) == (InputField { connected_output: Some(pin), ..*old(self) }),
    {
        self.connected_output = Some(pin)
    }

    /// Forgets the feeding output and returns it. Only this side of the link
    /// is written.
    pub fn disconnect(&mut self) -> (pin: OutputId)
        requires
            old(self).connected_output.is_some(),
        ensures
            Some(pin) == old(self).connected_output,
            *final(self) == (InputField { connected_output: None, ..*old(self) }),
    {
        match self.connected_output {
            Some(output_pin) => {
                self.connected_output = None;
                output_pin
            },
            None => 0,
        }
    }
}

} // verus!
