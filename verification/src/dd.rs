//! What every diagram offers, and what the reduced ones offer beyond that.
use vstd::prelude::*;
use crate::graphviz::graph_text;
use crate::node::{fitting, Node, Vertex};
use crate::operator::BooleanOperator;
use crate::tree::{Rule, Tree};

verus! {

/// A diagram: a graph of vertices below a root.
pub trait DecisionDiagram {
    /// The graph that the diagram holds.
    spec fn graph(&self) -> Node;

    /// The handles of all vertices on paths from the root, the root
    /// included, each once, in increasing order.
    fn all_nodes(&self) -> (r: Vec<usize>)
        ensures
            forall|h: usize| r@.contains(h) <==> self.graph().reaches(h as int),
            forall|i: int, j: int| 0 <= i < j < r.len() ==> r[i] < r[j],
            r.len() == self.graph().node_count(),
    ;

    /// The handle of the root.
    fn root(&self) -> (r: usize)
        ensures
            r == self.graph().root_handle(),
    ;

    /// The vertex with the given handle, `None` where the diagram has none.
    fn vertex(&self, handle: usize) -> (r: Option<Vertex>)
        ensures
            r == if handle < self.graph().arena().len() {
                Some(self.graph().arena()[handle as int])
            } else {
                None
            },
    ;

    /// The number of distinct vertices on paths from the root, the root included.
    fn len(&self) -> (r: usize)
        ensures
            r == self.graph().node_count(),
    ;

    /// Whether the diagram has no vertex at all.
    fn is_empty(&self) -> (r: bool)
        ensures
            r == (self.graph().node_count() == 0),
    {
        self.len() == 0
    }

    /// Appends to `sink` the text of the diagram in the graph description
    /// language of Graphviz.
    fn write_as_gv(&self, sink: &mut String)
        ensures
            final(sink)@ == old(sink)@ + graph_text(
                self.graph().arena(),
                self.graph().root_handle(),
            ),
    ;

    /// Whether some path from the root leads to true.
    fn satisfy_one(&self) -> (r: bool)
        ensures
            r == self.graph()@.satisfiable(),
    ;

    /// The number of paths from the root to true, `None` where it does not
    /// fit a machine integer.
    fn checked_satisfy_all(&self) -> (r: Option<usize>)
        ensures
            r == fitting(self.graph()@.count_paths()),
    ;

    /// The number of paths from the root to true, which has to fit a
    /// machine integer.
    fn satisfy_all(&self) -> (r: usize)
        requires
            self.graph()@.count_paths() <= usize::MAX,
        ensures
            r == self.graph()@.count_paths(),
    ;
}

/// A diagram that is kept in canonical form under one rule.
pub trait ReducedDecisionDiagram: DecisionDiagram + Sized {
    /// The rule under which the diagram is reduced.
    spec fn rule() -> Rule;

    /// Brings the diagram into canonical form.
    fn reduce(&mut self)
        ensures
            final(self).graph()@ == old(self).graph()@.reduced(Self::rule()),
    ;

    /// The canonical diagram that combines this diagram and `other`
    /// pointwise by `op`, each read under the rule of its kind. `unit` is
    /// used to cut the work short where that is sound.
    ///
    /// The result is the canonical form of the tree that the descent over
    /// both diagrams yields. A binary decision diagram of it has, at every
    /// assignment, the value of `op` on the values of the two. A
    /// zero-suppressed diagram of it holds a set exactly if `op` holds on
    /// whether each of the two holds it, for every `op` that is false where
    /// both its arguments are; for the others the pointwise combination is
    /// no finite family.
    fn apply(&self, op: BooleanOperator, unit: bool, other: &Self) -> (r: Self)
        ensures
            r.graph()@ == Tree::apply(
                Self::rule(),
                op,
                unit,
                self.graph()@,
                other.graph()@,
            ).reduced(Self::rule()),
            Self::rule() == Rule::Bdd || !op.eval(false, false) ==> forall|x: Set<nat>|
                r.graph()@.holds(Self::rule(), x) == op.eval(
                    self.graph()@.holds(Self::rule(), x),
                    other.graph()@.holds(Self::rule(), x),
                ),
    ;
}

} // verus!
