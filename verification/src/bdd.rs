//! Binary decision diagrams.
use vstd::prelude::*;
use crate::apply::apply_graphs;
use crate::arena::{lemma_reach_bound, tree_at};
use crate::canonical::{
    canonical, lemma_canonical_count, lemma_canonical_distinct, lemma_canonical_tree,
};
use crate::compose::compose_graphs;
use crate::dd::{DecisionDiagram, ReducedDecisionDiagram};
use crate::laws::{
    lemma_apply_ordered, lemma_bdd_apply_eval, lemma_bdd_canonical, lemma_bdd_compose_eval,
    lemma_bdd_unique, lemma_compose_ordered, lemma_reduced_eval, lemma_reduced_fixed,
};
use crate::node::{Node, Vertex};
use crate::operator::BooleanOperator;
use crate::reduce::reduce_graph;
use crate::tree::{Rule, Tree};

verus! {

/// A diagram in canonical form under the rule that drops every vertex whose
/// two children coincide.
#[derive(Debug)]
pub struct BDD {
    graph: Node,
}

impl View for BDD {
    type V = Tree;

    open spec fn view(&self) -> Tree {
        self.graph()@
    }
}

impl BDD {
    /// The graph is in canonical form.
    #[verifier::type_invariant]
    pub closed spec fn wf(self) -> bool {
        self.graph.wf() && canonical(self.graph.arena(), Rule::Bdd)
    }

    /// A diagram is ordered and reduced, reducing it again changes nothing,
    /// it holds one vertex for each distinct subtree of its tree, and its
    /// arena is in canonical form and holds the root.
    pub proof fn lemma_canonical(self)
        requires
            self.wf(),
        ensures
            self@.ordered(),
            self@.is_reduced(Rule::Bdd),
            self@.reduced(Rule::Bdd) == self@,
            self@.subtrees().finite(),
            self.graph().node_count() == self@.subtrees().len(),
            canonical(self.graph().arena(), Rule::Bdd),
            0 <= self.graph().root_handle() < self.graph().arena().len(),
    {
        reveal(Node::node_count);
        lemma_canonical_tree(self.graph.arena(), Rule::Bdd, self.graph.root_handle());
        lemma_reduced_fixed(self@, Rule::Bdd);
        lemma_canonical_count(self.graph.arena(), Rule::Bdd, self.graph.root_handle());
    }

    /// Two different vertices of a diagram denote different functions: their
    /// values differ at some assignment.
    pub proof fn lemma_vertices_differ(self, a: int, b: int)
        requires
            self.wf(),
            self.graph().reaches(a),
            self.graph().reaches(b),
            a != b,
        ensures
            exists|x: Set<nat>|
                tree_at(self.graph().arena(), a).eval(x) != tree_at(self.graph().arena(), b).eval(
                    x,
                ),
    {
        let arena = self.graph.arena();
        lemma_reach_bound(arena, self.graph.root_handle(), a);
        lemma_reach_bound(arena, self.graph.root_handle(), b);
        lemma_canonical_tree(arena, Rule::Bdd, a);
        lemma_canonical_tree(arena, Rule::Bdd, b);
        if forall|x: Set<nat>| tree_at(arena, a).eval(x) == tree_at(arena, b).eval(x) {
            lemma_bdd_canonical(tree_at(arena, a), tree_at(arena, b));
            lemma_canonical_distinct(arena, Rule::Bdd, a, b);
        }
    }

    /// Two diagrams of the same function hold the same tree.
    pub proof fn lemma_same_function(self, other: BDD)
        requires
            self.wf(),
            other.wf(),
            forall|x: Set<nat>| self@.eval(x) == other@.eval(x),
        ensures
            self@ == other@,
    {
        self.lemma_canonical();
        other.lemma_canonical();
        lemma_bdd_canonical(self@, other@);
    }

    /// Reducing any ordered tree of the function of a diagram gives the tree
    /// of that diagram.
    pub proof fn lemma_reduced_to_same(self, t: Tree)
        requires
            self.wf(),
            t.ordered(),
            forall|x: Set<nat>| t.eval(x) == self@.eval(x),
        ensures
            t.reduced(Rule::Bdd) == self@,
    {
        self.lemma_canonical();
        lemma_bdd_unique(t, self@);
    }

    /// The canonical diagram of the function that `graph` denotes.
    pub fn new_from(graph: Node) -> (r: Self)
        requires
            graph@.ordered(),
        ensures
            r@ == graph@.reduced(Rule::Bdd),
            forall|x: Set<nat>| r@.eval(x) == graph@.eval(x),
    {
        proof {
            assert forall|x: Set<nat>| graph@.reduced(Rule::Bdd).eval(x) == graph@.eval(x) by {
                lemma_reduced_eval(graph@, x);
            }
        }
        let reduced = reduce_graph(&graph, Rule::Bdd);
        proof {
            use_type_invariant(&reduced);
        }
        BDD { graph: reduced }
    }

    /// The canonical diagram of this function with the variable `var_index`
    /// replaced by the function of `other`.
    pub fn compose(&self, other: &Self, var_index: usize) -> (r: Self)
        ensures
            r@ == Tree::compose(self@, self@, other@, var_index as nat).reduced(Rule::Bdd),
            forall|x: Set<nat>|
                r@.eval(x) == self@.eval(
                    if other@.eval(x) {
                        x.insert(var_index as nat)
                    } else {
                        x.remove(var_index as nat)
                    },
                ),
    {
        proof {
            use_type_invariant(self);
            use_type_invariant(other);
            self.lemma_canonical();
            other.lemma_canonical();
            lemma_compose_ordered(self@, self@, other@, var_index as nat);
            assert forall|x: Set<nat>|
                Tree::compose(self@, self@, other@, var_index as nat).reduced(Rule::Bdd).eval(x)
                    == self@.eval(
                    if other@.eval(x) {
                        x.insert(var_index as nat)
                    } else {
                        x.remove(var_index as nat)
                    },
                ) by {
                lemma_bdd_compose_eval(self@, other@, var_index as nat, x);
            }
        }
        let raw = compose_graphs(&self.graph, &other.graph, var_index);
        BDD::new_from(raw)
    }
}

impl DecisionDiagram for BDD {
    closed spec fn graph(&self) -> Node {
        self.graph
    }

    fn root(&self) -> (r: usize) {
        self.graph.root()
    }

    fn vertex(&self, handle: usize) -> (r: Option<Vertex>) {
        self.graph.vertex(handle)
    }

    fn all_nodes(&self) -> (r: Vec<usize>) {
        self.graph.all_nodes()
    }

    fn len(&self) -> (r: usize)
        ensures
            r == self@.subtrees().len(),
    {
        proof {
            use_type_invariant(self);
            self.lemma_canonical();
        }
        self.graph.len()
    }

    fn write_as_gv(&self, sink: &mut String) {
        self.graph.write_as_gv(sink)
    }

    fn satisfy_one(&self) -> (r: bool) {
        self.graph.satisfy_one()
    }

    fn checked_satisfy_all(&self) -> (r: Option<usize>) {
        self.graph.checked_satisfy_all()
    }

    fn satisfy_all(&self) -> (r: usize) {
        self.graph.satisfy_all()
    }
}

impl Clone for BDD {
    fn clone(&self) -> (r: Self)
        ensures
            r@ == self@,
            r.graph().arena() == self.graph().arena(),
            r.graph().root_handle() == self.graph().root_handle(),
    {
        proof {
            use_type_invariant(self);
        }
        BDD { graph: self.graph.clone() }
    }
}

impl Default for BDD {
    fn default() -> (r: Self)
        ensures
            r@ == Tree::Leaf(false),
    {
        BDD::new_from(Node::terminal(false))
    }
}

impl ReducedDecisionDiagram for BDD {
    open spec fn rule() -> Rule {
        Rule::Bdd
    }

    fn reduce(&mut self)
        ensures
            final(self)@ == old(self)@,
    {
        proof {
            use_type_invariant(&*self);
            self.lemma_canonical();
        }
        let reduced = reduce_graph(&self.graph, Rule::Bdd);
        proof {
            use_type_invariant(&reduced);
        }
        self.graph = reduced;
    }

    fn apply(&self, op: BooleanOperator, unit: bool, other: &Self) -> (r: Self)
        ensures
            forall|x: Set<nat>| r@.eval(x) == op.eval(self@.eval(x), other@.eval(x)),
    {
        proof {
            assert forall|x: Set<nat>|
                Tree::apply(Rule::Bdd, op, unit, self@, other@).reduced(Rule::Bdd).eval(x)
                    == op.eval(self@.eval(x), other@.eval(x)) by {
                lemma_bdd_apply_eval(op, unit, self@, other@, x);
            }
            use_type_invariant(self);
            use_type_invariant(other);
            lemma_canonical_tree(self.graph.arena(), Rule::Bdd, self.graph.root_handle());
            lemma_canonical_tree(other.graph.arena(), Rule::Bdd, other.graph.root_handle());
            lemma_apply_ordered(Rule::Bdd, op, unit, self@, other@);
        }
        let raw = apply_graphs(Rule::Bdd, op, unit, &self.graph, &other.graph);
        BDD::new_from(raw)
    }
}

} // verus!
