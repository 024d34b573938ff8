//! Zero-suppressed decision diagrams.
use vstd::prelude::*;
use crate::apply::apply_graphs;
use crate::arena::{lemma_reach_bound, tree_at};
use crate::canonical::{
    canonical, lemma_canonical_count, lemma_canonical_distinct, lemma_canonical_tree,
};
use crate::compose::fix_graph;
use crate::dd::{DecisionDiagram, ReducedDecisionDiagram};
use crate::laws::{
    lemma_apply_ordered, lemma_at_one, lemma_at_zero, lemma_family_count, lemma_reduced_family,
    lemma_reduced_fixed, lemma_zdd_apply_family, lemma_zdd_canonical, lemma_zdd_unique,
};
use crate::node::{Node, Vertex};
use crate::operator::BooleanOperator;
use crate::reduce::reduce_graph;
use crate::tree::{Rule, Tree};

verus! {

/// A diagram in canonical form under the rule that drops every vertex whose
/// high child is the constant false.
#[derive(Debug)]
pub struct ZDD {
    graph: Node,
}

impl View for ZDD {
    type V = Tree;

    open spec fn view(&self) -> Tree {
        self.graph()@
    }
}

impl ZDD {
    /// The graph is in canonical form.
    #[verifier::type_invariant]
    pub closed spec fn wf(self) -> bool {
        self.graph.wf() && canonical(self.graph.arena(), Rule::Zdd)
    }

    /// A diagram is ordered and reduced, reducing it again changes nothing,
    /// it holds one vertex for each distinct subtree of its tree, and its
    /// arena is in canonical form and holds the root.
    pub proof fn lemma_canonical(self)
        requires
            self.wf(),
        ensures
            self@.ordered(),
            self@.is_reduced(Rule::Zdd),
            self@.reduced(Rule::Zdd) == self@,
            self@.subtrees().finite(),
            self.graph().node_count() == self@.subtrees().len(),
            canonical(self.graph().arena(), Rule::Zdd),
            0 <= self.graph().root_handle() < self.graph().arena().len(),
    {
        reveal(Node::node_count);
        lemma_canonical_tree(self.graph.arena(), Rule::Zdd, self.graph.root_handle());
        lemma_reduced_fixed(self@, Rule::Zdd);
        lemma_canonical_count(self.graph.arena(), Rule::Zdd, self.graph.root_handle());
    }

    /// Two different vertices of a diagram denote different families of
    /// sets: some set belongs to one and not to the other.
    pub proof fn lemma_vertices_differ(self, a: int, b: int)
        requires
            self.wf(),
            self.graph().reaches(a),
            self.graph().reaches(b),
            a != b,
        ensures
            exists|s: Set<nat>|
                tree_at(self.graph().arena(), a).in_family(s) != tree_at(
                    self.graph().arena(),
                    b,
                ).in_family(s),
    {
        let arena = self.graph.arena();
        lemma_reach_bound(arena, self.graph.root_handle(), a);
        lemma_reach_bound(arena, self.graph.root_handle(), b);
        lemma_canonical_tree(arena, Rule::Zdd, a);
        lemma_canonical_tree(arena, Rule::Zdd, b);
        if forall|s: Set<nat>| tree_at(arena, a).in_family(s) == tree_at(arena, b).in_family(s) {
            lemma_zdd_canonical(tree_at(arena, a), tree_at(arena, b));
            lemma_canonical_distinct(arena, Rule::Zdd, a, b);
        }
    }

    /// Two diagrams of the same family of sets hold the same tree.
    pub proof fn lemma_same_family(self, other: ZDD)
        requires
            self.wf(),
            other.wf(),
            forall|s: Set<nat>| self@.in_family(s) == other@.in_family(s),
        ensures
            self@ == other@,
    {
        self.lemma_canonical();
        other.lemma_canonical();
        lemma_zdd_canonical(self@, other@);
    }

    /// Reducing any ordered tree of the family of a diagram gives the tree of
    /// that diagram.
    pub proof fn lemma_reduced_to_same(self, t: Tree)
        requires
            self.wf(),
            t.ordered(),
            forall|s: Set<nat>| t.in_family(s) == self@.in_family(s),
        ensures
            t.reduced(Rule::Zdd) == self@,
    {
        self.lemma_canonical();
        lemma_zdd_unique(t, self@);
    }

    /// The canonical diagram of the family of sets that `graph` denotes.
    pub fn new_from(graph: Node) -> (r: Self)
        requires
            graph@.ordered(),
        ensures
            r@ == graph@.reduced(Rule::Zdd),
            forall|s: Set<nat>| r@.in_family(s) == graph@.in_family(s),
            r@.count_paths() == graph@.count_paths(),
    {
        proof {
            assert forall|s: Set<nat>|
                graph@.reduced(Rule::Zdd).in_family(s) == graph@.in_family(s) by {
                lemma_reduced_family(graph@, s);
            }
            lemma_reduced_family(graph@, Set::empty());
        }
        let reduced = reduce_graph(&graph, Rule::Zdd);
        proof {
            use_type_invariant(&reduced);
        }
        ZDD { graph: reduced }
    }

    /// The canonical diagram of the family of this diagram with the variable
    /// `var_index` replaced by `other`: it holds a set exactly if this
    /// diagram holds the set in which `var_index` is made a member where
    /// `other` holds the set, and is taken out where it does not.
    ///
    /// The two cofactors of this diagram for the variable are combined
    /// with `other`: the one at 1 where `other` holds, the one at 0 where
    /// it does not.
    pub fn compose(&self, other: &Self, var_index: usize) -> (r: Self)
        ensures
            forall|s: Set<nat>|
                r@.in_family(s) == self@.in_family(
                    if other@.in_family(s) {
                        s.insert(var_index as nat)
                    } else {
                        s.remove(var_index as nat)
                    },
                ),
    {
        proof {
            use_type_invariant(self);
            self.lemma_canonical();
            lemma_at_zero(self@, var_index as nat, Set::empty());
            lemma_at_one(self@, var_index as nat, Set::empty());
        }
        let zero = ZDD::new_from(fix_graph(&self.graph, var_index, false));
        let one = ZDD::new_from(fix_graph(&self.graph, var_index, true));
        let and = BooleanOperator::and();
        let and_not = BooleanOperator::new(false, false, true, false);
        let or = BooleanOperator::or();
        let then_part = other.apply(and, false, &one);
        let else_part = zero.apply(and_not, false, other);
        let r = then_part.apply(or, true, &else_part);
        proof {
            assert forall|s: Set<nat>|
                r@.in_family(s) == self@.in_family(
                    if other@.in_family(s) {
                        s.insert(var_index as nat)
                    } else {
                        s.remove(var_index as nat)
                    },
                ) by {
                lemma_at_zero(self@, var_index as nat, s);
                lemma_at_one(self@, var_index as nat, s);
                assert(then_part@.in_family(s) == and.eval(
                    other@.in_family(s),
                    one@.in_family(s),
                ));
                assert(else_part@.in_family(s) == and_not.eval(
                    zero@.in_family(s),
                    other@.in_family(s),
                ));
                assert(r@.in_family(s) == or.eval(
                    then_part@.in_family(s),
                    else_part@.in_family(s),
                ));
            }
        }
        r
    }
}

impl DecisionDiagram for ZDD {
    closed spec fn graph(&self) -> Node {
        self.graph
    }

    fn root(&self) -> (r: usize) {
        self.graph.root()
    }

    fn vertex(&self, handle: usize) -> (r: Option<Vertex>) {
        self.graph.vertex(handle)
    }

    fn all_nodes(&self) -> (r: Vec<usize>) {
        self.graph.all_nodes()
    }

    fn len(&self) -> (r: usize)
        ensures
            r == self@.subtrees().len(),
    {
        proof {
            use_type_invariant(self);
            self.lemma_canonical();
        }
        self.graph.len()
    }

    fn write_as_gv(&self, sink: &mut String) {
        self.graph.write_as_gv(sink)
    }

    fn satisfy_one(&self) -> (r: bool) {
        self.graph.satisfy_one()
    }

    fn checked_satisfy_all(&self) -> (r: Option<usize>) {
        self.graph.checked_satisfy_all()
    }

    fn satisfy_all(&self) -> (r: usize)
        ensures
            r == self@.family().len(),
    {
        proof {
            use_type_invariant(self);
            self.lemma_canonical();
            lemma_family_count(self@);
        }
        self.graph.satisfy_all()
    }
}

impl Clone for ZDD {
    fn clone(&self) -> (r: Self)
        ensures
            r@ == self@,
            r.graph().arena() == self.graph().arena(),
            r.graph().root_handle() == self.graph().root_handle(),
    {
        proof {
            use_type_invariant(self);
        }
        ZDD { graph: self.graph.clone() }
    }
}

impl Default for ZDD {
    fn default() -> (r: Self)
        ensures
            r@ == Tree::Leaf(false),
    {
        ZDD::new_from(Node::terminal(false))
    }
}

impl ReducedDecisionDiagram for ZDD {
    open spec fn rule() -> Rule {
        Rule::Zdd
    }

    fn reduce(&mut self)
        ensures
            final(self)@ == old(self)@,
    {
        proof {
            use_type_invariant(&*self);
            self.lemma_canonical();
        }
        let reduced = reduce_graph(&self.graph, Rule::Zdd);
        proof {
            use_type_invariant(&reduced);
        }
        self.graph = reduced;
    }

    fn apply(&self, op: BooleanOperator, unit: bool, other: &Self) -> (r: Self)
        ensures
            !op.eval(false, false) ==> forall|s: Set<nat>|
                r@.in_family(s) == op.eval(self@.in_family(s), other@.in_family(s)),
    {
        proof {
            use_type_invariant(self);
            use_type_invariant(other);
            self.lemma_canonical();
            other.lemma_canonical();
            lemma_apply_ordered(Rule::Zdd, op, unit, self@, other@);
            if !op.eval(false, false) {
                assert forall|s: Set<nat>|
                    Tree::apply(Rule::Zdd, op, unit, self@, other@).reduced(Rule::Zdd).in_family(
                        s,
                    ) == op.eval(self@.in_family(s), other@.in_family(s)) by {
                    lemma_zdd_apply_family(op, unit, self@, other@, s);
                }
            }
        }
        let raw = apply_graphs(Rule::Zdd, op, unit, &self.graph, &other.graph);
        ZDD::new_from(raw)
    }
}

} // verus!
