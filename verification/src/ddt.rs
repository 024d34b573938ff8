//! Decision trees as they are written down, before any reduction.
use vstd::prelude::*;
use crate::dd::DecisionDiagram;
use crate::arena::arena_wf;
use crate::node::{Node, Vertex};
use crate::tree::Tree;

pub mod example;

verus! {

/// A diagram that is kept as it was built.
#[derive(Debug)]
pub struct DDT {
    graph: Node,
}

impl View for DDT {
    type V = Tree;

    open spec fn view(&self) -> Tree {
        self.graph()@
    }
}

impl DDT {
    /// The graph is well formed.
    #[verifier::type_invariant]
    pub closed spec fn wf(self) -> bool {
        self.graph.wf()
    }

    /// What holds of every diagram: every decision vertex of its arena
    /// points to earlier vertices, and the root is a vertex of the arena.
    pub proof fn lemma_well_formed(self)
        requires
            self.wf(),
        ensures
            arena_wf(self.graph().arena()),
            0 <= self.graph().root_handle() < self.graph().arena().len(),
    {
    }

    /// The diagram that holds `graph` as it is.
    pub fn new_from(graph: Node) -> (r: Self)
        ensures
            r.graph() == graph,
    {
        proof {
            use_type_invariant(&graph);
        }
        DDT { graph }
    }
}

impl DecisionDiagram for DDT {
    closed spec fn graph(&self) -> Node {
        self.graph
    }

    fn root(&self) -> (r: usize) {
        self.graph.root()
    }

    fn vertex(&self, handle: usize) -> (r: Option<Vertex>) {
        self.graph.vertex(handle)
    }

    fn all_nodes(&self) -> (r: Vec<usize>) {
        self.graph.all_nodes()
    }

    fn len(&self) -> (r: usize) {
        self.graph.len()
    }

    fn write_as_gv(&self, sink: &mut String) {
        self.graph.write_as_gv(sink)
    }

    fn satisfy_one(&self) -> (r: bool) {
        self.graph.satisfy_one()
    }

    fn checked_satisfy_all(&self) -> (r: Option<usize>) {
        self.graph.checked_satisfy_all()
    }

    fn satisfy_all(&self) -> (r: usize) {
        self.graph.satisfy_all()
    }
}

impl Clone for DDT {
    fn clone(&self) -> (r: Self)
        ensures
            r@ == self@,
            r.graph().arena() == self.graph().arena(),
            r.graph().root_handle() == self.graph().root_handle(),
    {
        DDT::new_from(self.graph.clone())
    }
}

impl Default for DDT {
    fn default() -> (r: Self)
        ensures
            r@ == Tree::Leaf(false),
    {
        DDT::new_from(Node::terminal(false))
    }
}

} // verus!
