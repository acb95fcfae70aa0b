use vstd::prelude::*;
use crate::engine::input_field::InputId;
use crate::engine::node::NodeId;
use crate::engine::pin::PinProperties;
use crate::types::data_type::DataValue;

verus! {

pub type OutputId = usize;

/// A typed producer on a node. It holds the value last computed for it and
/// the inputs it feeds, in the order in which they were connected.
pub struct OutputPin {
    pub properties: PinProperties,
    /// Position within the owning node's output list.
    pub index: u8,
    pub value: DataValue,
    pub connections: Vec<InputId>,
}

/// The first position of `x` in `s`, or the length of `s` if it does not occur.
pub open spec fn first_index_of(s: Seq<usize>, x: usize) -> int
    decreases s.len(),
{
    if s.len() == 0 {
        0
    } else if s[0] == x {
        0
    } else {
        1 + first_index_of(s.drop_first(), x)
    }
}

/// The first position of `x` is a position of `x` if there is one, and no
/// earlier position holds `x`.
pub proof fn lemma_first_index_of(s: Seq<usize>, x: usize)
    ensures
        0 <= first_index_of(s, x) <= s.len(),
        first_index_of(s, x) < s.len() ==> s[first_index_of(s, x)] == x,
        forall|i: int| 0 <= i < first_index_of(s, x) ==> s[i] != x,
        s.contains(x) <==> first_index_of(s, x) < s.len(),
    decreases s.len(),
{
    if s.len() == 0 {
    } else if s[0] == x {
        assert(s.contains(x));
    } else {
        let t = s.drop_first();
        lemma_first_index_of(t, x);
        let p = first_index_of(t, x);
        assert forall|i: int| 0 <= i < 1 + p implies s[i] != x by {
            if i > 0 {
                assert(s[i] == t[i - 1]);
            }
        }
        if p < t.len() {
            assert(s[1 + p] == t[p]);
            assert(s.contains(x));
        }
        if s.contains(x) {
            let i = choose|i: int| 0 <= i < s.len() && s[i] == x;
            assert(t[i - 1] == x);
            assert(t.contains(x));
        }
    }
}

impl OutputPin {
    /// An output with no connections, at the first position of its node,
    /// holding the number zero.
    pub fn new(id: OutputId, parent_id: NodeId) -> (p: OutputPin)
        ensures
            p.properties == (PinProperties { id, parent_id }),
            p.index == 0,
            p.value == DataValue::Number(0),
            p.connections@ == Seq::<InputId>::empty(),
    {
        OutputPin {
            properties: PinProperties { id, parent_id },
            index: 0,
            value: DataValue::Number(0),
            connections: Vec::new(),
        }
    }

    pub fn id(&self) -> (id: OutputId)
        ensures
            id == self.properties.id,
    {
        self.properties.id
    }

    pub fn get_parent_id(&self) -> (id: NodeId)
        ensures
            id == self.properties.parent_id,
    {
        self.properties.parent_id
    }

    pub fn value(&self) -> (v: &DataValue)
        ensures
            *v == self.value,
    {
        &self.value
    }

    pub fn set_value(&mut self, value: DataValue)
        ensures
            final(self).value == value,
            final(self).properties == old(self).properties,
            final(self).index == old(self).index,
            final(self).connections == old(self).connections,
    {
        self.value = value
    }

    pub fn is_connected(&self) -> (b: bool)
        ensures
            b == (self.connections@.len() > 0),
    {
        self.connections.len() > 0
    }

    pub fn get_connected_inputs(&self) -> (inputs: &Vec<InputId>)
        ensures
            inputs@ == self.connections@,
    {
        &self.connections
    }

    /// Appends `field` to the inputs fed. Only this side of the link is
    /// written.
    pub fn connect(&mut self, field: InputId)
        ensures
            final(self).connections@ == old(self).connections@.push(field),
            final(self).properties == old(self).properties,
            final(self).index == old(self).index,
            final(self).value == old(self).value,
    {
        self.connections.push(field);
    }

    /// Where `field` first occurs among the inputs fed.
    pub fn position_of(&self, field: InputId) -> (at: usize)
        requires
            self.connections@.contains(field),
        ensures
            at == first_index_of(self.connections@, field),
            at < self.connections@.len(),
            self.connections@[at as int] == field,
    {
        let mut i: usize = 0;
        proof {
            lemma_first_index_of(self.connections@, field);
        }
        while i < self.connections.len() && self.connections[i] != field
            invariant
                0 <= i <= self.connections@.len(),
                forall|j: int| 0 <= j < i ==> self.connections@[j] != field,
                first_index_of(self.connections@, field) < self.connections@.len(),
                self.connections@[first_index_of(self.connections@, field)] == field,
                forall|j: int|
                    0 <= j < first_index_of(self.connections@, field) ==> self.connections@[j] != field,
            decreases self.connections@.len() - i,
        {
            i = i + 1;
        }
        i
    }

    /// Takes the first occurrence of `field` out of the inputs fed; the others
    /// keep their order. Only this side of the link is written.
    pub fn disconnect(&mut self, field: InputId)
        requires
            old(self).connections@.contains(field),
        ensures
            final(self).connections@ == old(self).connections@.remove(
                first_index_of(old(self).connections@, field),
            ),
            final(self).properties == old(self).properties,
            final(self).index == old(self).index,
            final(self).value == old(self).value,
    {
        let at = self.position_of(field);
        self.connections.remove(at);
    }

    /// Empties the list of inputs fed. Only this side of the links is written.
    pub fn disconnect_all(&mut self)
        ensures
            final(self).connections@ == Seq::<InputId>::empty(),
            final(self).properties == old(self).properties,
            final(self).index == old(self).index,
            final(self).value == old(self).value,
    {
        self.connections.clear();
    }
}

} // verus!
