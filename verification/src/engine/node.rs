use vstd::prelude::*;
use crate::nodes::constants::color::{constant_color_descriptor, constant_color_process};
use crate::nodes::constants::number::{constant_number_descriptor, constant_number_process};
use crate::types::data_type::{DataType, DataValue};

verus! {

pub type NodeId = usize;

/// A node of a graph: its own position, its kind, and the positions of its
/// input and output slots in the graph's slot storage, in declared order.
pub struct Node {
    pub id: NodeId,
    pub kind: NodeKind,
    pub inputs: Vec<usize>,
    pub outputs: Vec<usize>,
}

/// What a free-standing node knows of itself.
#[derive(Clone, Copy, Debug, PartialEq, Eq, Structural)]
pub struct NodeProperties {
    pub id: NodeId,
}

/// The closed set of node kinds.
#[derive(Clone, Copy, Debug, PartialEq, Eq, Structural)]
pub enum NodeKind {
    ConstantColor,
    ConstantNumber,
}

/// One declared input of a node kind.
pub struct InputDesc {
    pub name: &'static str,
    pub data_type: DataType,
    pub default: DataValue,
}

/// One declared output of a node kind.
pub struct OutputDesc {
    pub name: &'static str,
    pub data_type: DataType,
}

/// The shape of a node kind: its name and its declared inputs and outputs.
pub struct NodeDescriptor {
    pub kind: NodeKind,
    pub name: &'static str,
    pub inputs: Vec<InputDesc>,
    pub outputs: Vec<OutputDesc>,
}

impl NodeKind {
    pub open spec fn name_spec(self) -> Seq<char> {
        match self {
            NodeKind::ConstantColor => "Constant Color"@,
            NodeKind::ConstantNumber => "Constant Number"@,
        }
    }

    /// The kinds of the declared inputs, in order.
    pub open spec fn input_kinds(self) -> Seq<DataType> {
        match self {
            NodeKind::ConstantColor => seq![DataType::Color],
            NodeKind::ConstantNumber => seq![DataType::Number],
        }
    }

    /// The names of the declared inputs, in order.
    pub open spec fn input_names(self) -> Seq<Seq<char>> {
        match self {
            NodeKind::ConstantColor => seq!["Color"@],
            NodeKind::ConstantNumber => seq!["Number"@],
        }
    }

    /// The values that the inputs of a fresh node hold, in order.
    pub open spec fn input_defaults(self) -> Seq<DataValue> {
        match self {
            NodeKind::ConstantColor => seq![DataValue::zero(DataType::Color)],
            NodeKind::ConstantNumber => seq![DataValue::zero(DataType::Number)],
        }
    }

    /// The kinds of the declared outputs, in order.
    pub open spec fn output_kinds(self) -> Seq<DataType> {
        match self {
            NodeKind::ConstantColor => seq![DataType::Color],
            NodeKind::ConstantNumber => seq![DataType::Number],
        }
    }

    /// The names of the declared outputs, in order.
    pub open spec fn output_names(self) -> Seq<Seq<char>> {
        match self {
            NodeKind::ConstantColor => seq!["Color"@],
            NodeKind::ConstantNumber => seq!["Number"@],
        }
    }

    /// `values` has one value of the declared kind for each input.
    pub open spec fn accepts(self, values: Seq<DataValue>) -> bool {
        &&& values.len() == self.input_kinds().len()
        &&& forall|i: int|
            0 <= i < values.len() ==> (#[trigger] values[i]).kind_spec() == self.input_kinds()[i]
    }

    /// `values` has one value of the declared kind for each output.
    pub open spec fn yields(self, values: Seq<DataValue>) -> bool {
        &&& values.len() == self.output_kinds().len()
        &&& forall|i: int|
            0 <= i < values.len() ==> (#[trigger] values[i]).kind_spec() == self.output_kinds()[i]
    }

    /// The outputs that the kind computes from its inputs. Both kinds forward
    /// their single input.
    pub open spec fn transform(self, inputs: Seq<DataValue>) -> Seq<DataValue> {
        match self {
            NodeKind::ConstantColor => seq![inputs[0]],
            NodeKind::ConstantNumber => seq![inputs[0]],
        }
    }

    /// The descriptor of the kind: a lookup that cannot fail.
    pub fn descriptor(&self) -> (d: NodeDescriptor)
        ensures
            d.describes(*self),
    {
        match self {
            NodeKind::ConstantColor => constant_color_descriptor(),
            NodeKind::ConstantNumber => constant_number_descriptor(),
        }
    }

    /// The declared shapes agree with each other: defaults have the declared
    /// kinds, the transformation turns accepted inputs into well-kinded
    /// outputs, and a slot's position fits in a byte.
    pub proof fn lemma_shape(self)
        ensures
            self.accepts(self.input_defaults()),
            self.input_names().len() == self.input_kinds().len(),
            self.output_names().len() == self.output_kinds().len(),
            self.input_kinds().len() <= 256,
            self.output_kinds().len() <= 256,
            forall|inputs: Seq<DataValue>| #[trigger]
                self.accepts(inputs) ==> self.yields(self.transform(inputs)),
    {
        assert forall|inputs: Seq<DataValue>| #[trigger] self.accepts(inputs) implies self.yields(
            self.transform(inputs),
        ) by {
            assert(inputs[0].kind_spec() == self.input_kinds()[0]);
        }
    }
}

impl NodeDescriptor {
    /// The descriptor is the one of `kind`.
    pub open spec fn describes(&self, kind: NodeKind) -> bool {
        &&& self.kind == kind
        &&& self.name@ == kind.name_spec()
        &&& self.inputs@.len() == kind.input_kinds().len()
        &&& forall|i: int|
            0 <= i < self.inputs@.len() ==> {
                &&& (#[trigger] self.inputs@[i]).name@ == kind.input_names()[i]
                &&& self.inputs@[i].data_type == kind.input_kinds()[i]
                &&& self.inputs@[i].default == kind.input_defaults()[i]
            }
        &&& self.outputs@.len() == kind.output_kinds().len()
        &&& forall|i: int|
            0 <= i < self.outputs@.len() ==> {
                &&& (#[trigger] self.outputs@[i]).name@ == kind.output_names()[i]
                &&& self.outputs@[i].data_type == kind.output_kinds()[i]
            }
    }
}

impl NodeDescriptor {
    /// Runs the kind's transformation: reads the input values in declared
    /// order and overwrites the output values.
    pub fn process(&self, inputs: Vec<DataValue>, outputs: &mut Vec<DataValue>)
        requires
            self.kind.accepts(inputs@),
            self.kind.yields(old(outputs)@),
        ensures
            final(outputs)@ == self.kind.transform(inputs@),
            self.kind.yields(final(outputs)@),
    {
        proof {
            self.kind.lemma_shape();
        }
        match self.kind {
            NodeKind::ConstantColor => constant_color_process(inputs, outputs),
            NodeKind::ConstantNumber => constant_number_process(inputs, outputs),
        }
    }
}

} // verus!
