use ddir::apply::apply_graphs;
use ddir::bdd::BDD;
use ddir::compose::{compose_graphs, fix_graph};
use ddir::node::{Arena, Vertex};
use ddir::reduce::{build_indexer, reduce_graph};
use ddir::tree::Rule;
use ddir::zdd::ZDD;
use ddir::dd::{DecisionDiagram, ReducedDecisionDiagram};
use ddir::ddt::example;
use ddir::ddt::DDT;
use ddir::operator::BooleanOperator;

#[test]
fn ddt_examples() {
    let ind = example::independent_set();
    assert_eq!(ind.len(), 127);
    assert_eq!(ind.satisfy_all(), 18);
    assert_eq!(ind.satisfy_one(), true);
    let maj = example::majority();
    assert_eq!(maj.len(), 11);
    assert_eq!(maj.satisfy_all(), 3);
    assert_eq!(example::x1x3().len(), 5);
    assert_eq!(example::x1x3().satisfy_all(), 2);
    assert_eq!(example::x2x3().len(), 5);
    assert_eq!(example::x2x3().satisfy_all(), 1);
    assert_eq!(maj.all_nodes().len(), 11);
}

#[test]
fn ddt_default_is_false() {
    let d = DDT::default();
    assert_eq!(d.len(), 1);
    assert_eq!(d.satisfy_one(), false);
    assert!(!d.is_empty());
}

#[test]
fn ddt_text_is_that_of_its_graph() {
    let mut a = String::new();
    example::x2x3().write_as_gv(&mut a);
    let mut b = String::new();
    ddir::node::example::x2x3().write_as_gv(&mut b);
    assert_eq!(a, b);
    assert!(a.contains("[label=\"3\"];\n"));
}

#[test]
fn operator_tables() {
    let and = BooleanOperator::and();
    let or = BooleanOperator::or();
    let xor = BooleanOperator::xor();
    for a in [false, true] {
        for b in [false, true] {
            assert_eq!(and.call(a, b), a && b);
            assert_eq!(or.call(a, b), a || b);
            assert_eq!(xor.call(a, b), a != b);
        }
    }
    assert!(and.is_absorbing(false));
    assert!(!and.is_absorbing(true));
    assert!(or.is_absorbing(true));
    assert!(!or.is_absorbing(false));
    assert!(!xor.is_absorbing(true));
    assert!(!xor.is_absorbing(false));
    let implies = BooleanOperator::new(true, true, false, true);
    assert_eq!(implies.call(true, false), false);
    assert!(!implies.is_absorbing(true));
    let always = BooleanOperator::new(true, true, true, true);
    assert!(always.is_absorbing(true));
    let _ = BDD::new_from(ddir::node::example::majority());
}

#[test]
fn indexer_starts_with_the_terminals() {
    let mut arena = Arena::new();
    let t = arena.new_constant(true);
    let f = arena.new_constant(false);
    let n = arena.new_var(5, t, f);
    let ix = build_indexer(&arena.node(n));
    assert_eq!(ix.node, vec![Vertex::Bool(false), Vertex::Bool(true)]);
    assert_eq!(ix.index, vec![Some(1), Some(0), None]);
}

#[test]
fn reduce_graph_under_both_rules() {
    let maj = ddir::node::example::majority();
    assert_eq!(reduce_graph(&maj, Rule::Bdd).len(), 6);
    assert_eq!(reduce_graph(&maj, Rule::Zdd).len(), 6);
    let x1x3 = ddir::node::example::x1x3();
    let b = reduce_graph(&x1x3, Rule::Bdd);
    assert_eq!((b.len(), b.satisfy_all(), b.var_index()), (4, 2, Some(1)));
    let z = reduce_graph(&x1x3, Rule::Zdd);
    assert_eq!((z.len(), z.satisfy_all(), z.var_index()), (2, 2, Some(1)));
    assert_eq!(z.low().unwrap().is_constant(), Some(true));
    assert_eq!(z.high().unwrap().is_constant(), Some(true));
    // a vertex that is dropped at the root
    let mut arena = Arena::new();
    let f = arena.new_constant(false);
    let t = arena.new_constant(true);
    let n = arena.new_var(1, t, f);
    let n = arena.node(n);
    let dropped = reduce_graph(&n, Rule::Zdd);
    assert_eq!(dropped.is_constant(), Some(true));
    assert_eq!(dropped.len(), 1);
    let kept = reduce_graph(&n, Rule::Bdd);
    assert_eq!(kept.var_index(), Some(1));
    assert_eq!(kept.len(), 3);
}

#[test]
fn reduce_graph_keeps_the_vertices_in_canonical_order() {
    let x2x3 = reduce_graph(&ddir::node::example::x2x3(), Rule::Bdd);
    assert_eq!(x2x3.vertex(0), Some(Vertex::Bool(false)));
    assert_eq!(x2x3.vertex(1), Some(Vertex::Bool(true)));
    assert_eq!(x2x3.vertex(2), Some(Vertex::Var { var_index: 3, low: 0, high: 1 }));
    assert_eq!(x2x3.vertex(3), Some(Vertex::Var { var_index: 2, low: 0, high: 2 }));
    assert_eq!(x2x3.vertex(4), None);
    assert_eq!(x2x3.all_nodes(), vec![0, 1, 2, 3]);
}

#[test]
fn raw_combination_and_composition() {
    let x1x3 = ddir::node::example::x1x3();
    let x2x3 = ddir::node::example::x2x3();
    let or = apply_graphs(Rule::Bdd, BooleanOperator::or(), true, &x1x3, &x2x3);
    assert_eq!(or.var_index(), Some(1));
    assert_eq!(or.satisfy_all(), 4);
    assert_eq!(reduce_graph(&or, Rule::Bdd).satisfy_all(), 3);
    assert!(or.is_ordered());
    let x1x2x4 = ddir::node::example::x1x2x4();
    let composed = compose_graphs(&x1x2x4, &x2x3, 2);
    assert_eq!(composed.var_index(), Some(1));
    assert_eq!(composed.satisfy_all(), 6);
    assert_eq!(reduce_graph(&composed, Rule::Bdd).satisfy_all(), 4);
    assert!(composed.is_ordered());
}

#[test]
fn diagrams_can_be_copied() {
    let b = BDD::new_from(ddir::node::example::kernels());
    let c = b.clone();
    assert_eq!((c.len(), c.satisfy_all()), (17, 5));
    let z = ZDD::new_from(ddir::node::example::kernels());
    let y = z.clone();
    assert_eq!((y.len(), y.satisfy_all()), (10, 5));
    let d = example::majority();
    assert_eq!(d.clone().len(), 11);
    assert_eq!(BDD::default().satisfy_one(), false);
    assert_eq!(BDD::default().len(), 1);
    assert_eq!(ZDD::default().satisfy_one(), false);
}

#[test]
fn diagrams_hand_out_their_vertices() {
    let b = BDD::new_from(ddir::node::example::x2x3());
    assert_eq!(b.root(), 3);
    assert_eq!(b.vertex(b.root()), Some(Vertex::Var { var_index: 2, low: 0, high: 2 }));
    for h in b.all_nodes() {
        assert!(b.vertex(h).is_some());
    }
    let f = BDD::new_from(ddir::node::example::x2x3()).apply(
        BooleanOperator::and(),
        false,
        &BDD::default(),
    );
    assert_eq!(f.vertex(f.root()), Some(Vertex::Bool(false)));
    let z = ZDD::new_from(ddir::node::example::x1x3());
    assert_eq!(z.vertex(z.root()), Some(Vertex::Var { var_index: 1, low: 1, high: 1 }));
    let d = example::x1x3();
    assert_eq!(d.root(), 4);
    assert_eq!(d.vertex(4), Some(Vertex::Var { var_index: 1, low: 0, high: 3 }));
    assert_eq!(d.vertex(5), None);
    let w = DDT::new_from(ddir::node::example::majority());
    assert_eq!(w.len(), 11);
}

#[test]
fn checked_counts_of_the_diagrams() {
    let b = BDD::new_from(ddir::node::example::independent_set());
    assert_eq!(b.checked_satisfy_all(), Some(11));
    let z = ZDD::new_from(ddir::node::example::independent_set());
    assert_eq!(z.checked_satisfy_all(), Some(18));
    assert_eq!(example::majority().checked_satisfy_all(), Some(3));
    // two to the power of 70 sets: every subset of seventy variables
    let mut arena = Arena::new();
    let mut below = arena.new_constant(true);
    let mut v = 70;
    while v > 0 {
        below = arena.new_var(v, below, below);
        v -= 1;
    }
    let all = ZDD::new_from(arena.node(below));
    assert_eq!(all.len(), 71);
    assert_eq!(all.checked_satisfy_all(), None);
    assert_eq!(DDT::new_from(arena.node(below)).checked_satisfy_all(), None);
}

#[test]
fn raw_combination_of_families() {
    // {{}, {1}} and {{2, 3}}, in canonical arenas
    let x1x3 = reduce_graph(&ddir::node::example::x1x3(), Rule::Zdd);
    let x2x3 = reduce_graph(&ddir::node::example::x2x3(), Rule::Zdd);
    let or = apply_graphs(Rule::Zdd, BooleanOperator::or(), true, &x1x3, &x2x3);
    assert!(or.is_ordered());
    assert_eq!(or.satisfy_all(), 3);
    let and = apply_graphs(Rule::Zdd, BooleanOperator::and(), false, &x1x3, &x2x3);
    assert_eq!(and.satisfy_one(), false);
    // the same two read as binary decision diagrams
    let or = apply_graphs(Rule::Bdd, BooleanOperator::or(), true, &x1x3, &x2x3);
    assert_eq!(reduce_graph(&or, Rule::Bdd).is_constant(), Some(true));
}

#[test]
fn cofactors_of_a_family() {
    // the pairs of 1, 2, 3
    let maj = reduce_graph(&ddir::node::example::majority(), Rule::Zdd);
    // without 1 only {2, 3} is left, and 1 may be added to it
    let zero = fix_graph(&maj, 1, false);
    assert!(zero.is_ordered());
    assert_eq!(zero.satisfy_all(), 2);
    assert_eq!(zero.var_index(), Some(1));
    // with 1 there are {2} and {3}, each with or without 1
    let one = fix_graph(&maj, 1, true);
    assert_eq!(one.satisfy_all(), 4);
    assert_eq!(reduce_graph(&one, Rule::Zdd).len(), 5);
    // a variable above all others
    let zero = fix_graph(&maj, 0, false);
    assert_eq!((zero.var_index(), zero.satisfy_all()), (Some(0), 6));
    let one = fix_graph(&maj, 0, true);
    assert_eq!(one.is_constant(), Some(false));
    // a variable below all others
    let zero = fix_graph(&maj, 7, false);
    assert_eq!((zero.var_index(), zero.satisfy_all()), (Some(1), 6));
    let one = fix_graph(&maj, 7, true);
    assert_eq!(one.satisfy_one(), false);
}
