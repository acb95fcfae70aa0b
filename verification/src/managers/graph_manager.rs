use vstd::prelude::*;
use crate::engine::graph::{Graph, GraphError, GraphId};

verus! {

/// A store of independent graphs, each known by its position.
pub struct GraphManager {
    graphs: Vec<Graph>,
}

impl GraphManager {
    /// The graphs of the store, by identifier.
    pub closed spec fn graphs(&self) -> Seq<Graph> {
        self.graphs@
    }

    /// Every graph of the store is well formed.
    pub open spec fn wf(&self) -> bool {
        forall|id: int| 0 <= id < self.graphs().len() ==> (#[trigger] self.graphs()[id]).wf()
    }

    /// The empty store.
    pub fn new() -> (m: GraphManager)
        ensures
            m.graphs().len() == 0,
            m.wf(),
    {
        GraphManager { graphs: Vec::new() }
    }

    /// How many graphs the store holds.
    pub fn graph_count(&self) -> (n: usize)
        ensures
            n == self.graphs().len(),
    {
        self.graphs.len()
    }

    /// Adds an empty graph and returns its identifier. The graphs already in
    /// the store keep theirs.
    pub fn add_graph(&mut self) -> (id: GraphId)
        ensures
            id == old(self).graphs().len(),
            final(self).graphs().len() == old(self).graphs().len() + 1,
            forall|i: int|
                0 <= i < old(self).graphs().len() ==> final(self).graphs()[i] == old(self).graphs()[i],
            final(self).graphs()[id as int].wf(),
            final(self).graphs()[id as int].nodes().len() == 0,
            final(self).graphs()[id as int].inputs().len() == 0,
            final(self).graphs()[id as int].outputs().len() == 0,
            final(self).graphs()[id as int].order().len() == 0,
            !final(self).graphs()[id as int].dirty(),
            old(self).wf() ==> final(self).wf(),
    {
        let id = self.graphs.len();
        self.graphs.push(Graph::new());
        id
    }

    /// The graph known by `id`.
    pub fn get_graph(&self, id: GraphId) -> (r: Result<&Graph, GraphError>)
        ensures
            id < self.graphs().len() ==> r == Ok::<&Graph, GraphError>(&self.graphs()[id as int]),
            id >= self.graphs().len() ==> r == Err::<&Graph, GraphError>(GraphError::UnknownGraph),
    {
        if id < self.graphs.len() {
            Ok(&self.graphs[id])
        } else {
            Err(GraphError::UnknownGraph)
        }
    }

    /// The graph known by `id`, for changing in place. Whatever the caller
    /// does to it, the other graphs of the store stay as they are.
    pub fn get_graph_mut(&mut self, id: GraphId) -> (r: Result<&mut Graph, GraphError>)
        ensures
            match r {
                Ok(g) => {
                    &&& id < old(self).graphs().len()
                    &&& *g == old(self).graphs()[id as int]
                    &&& final(self).graphs() == old(self).graphs().update(id as int, *final(g))
                },
                Err(e) => {
                    &&& id >= old(self).graphs().len()
                    &&& e == GraphError::UnknownGraph
                    &&& *final(self) == *old(self)
                },
            },
    {
        if id < self.graphs.len() {
            Ok(&mut self.graphs[id])
        } else {
            Err(GraphError::UnknownGraph)
        }
    }
}

} // verus!
