use ddir::bdd::BDD;
use ddir::dd::{DecisionDiagram, ReducedDecisionDiagram};
use ddir::node::example;
use ddir::node::{Arena, Node};
use ddir::operator::BooleanOperator;

enum Shape {
    Leaf(bool),
    Branch(usize, Box<Shape>, Box<Shape>),
}

fn leaf(b: bool) -> Shape {
    Shape::Leaf(b)
}

fn branch(v: usize, low: Shape, high: Shape) -> Shape {
    Shape::Branch(v, Box::new(low), Box::new(high))
}

fn write(arena: &mut Arena, shape: &Shape) -> usize {
    match shape {
        Shape::Leaf(b) => arena.new_constant(*b),
        Shape::Branch(v, low, high) => {
            let l = write(arena, low);
            let h = write(arena, high);
            arena.new_var(*v, l, h)
        }
    }
}

/// The tree of the given shape, every vertex of it made on its own.
fn tree(shape: Shape) -> Node {
    let mut arena = Arena::new();
    let root = write(&mut arena, &shape);
    arena.node(root)
}

fn text_of<D: DecisionDiagram>(diagram: &D) -> String {
    let mut text = String::new();
    diagram.write_as_gv(&mut text);
    text
}

#[test]
fn test() {
    let mut arena = Arena::new();
    let f = arena.new_constant(false);
    let n = arena.new_var(2, f, f);
    let n: Node = arena.node(n);
    let bdd: BDD = BDD::new_from(n);
    assert_eq!(bdd.len(), 1);
}

#[test]
fn bdd_of_a_terminal_is_that_terminal() {
    let f = BDD::new_from(tree(leaf(false)));
    assert_eq!(f.len(), 1);
    assert_eq!(f.satisfy_one(), false);
    assert_eq!(f.satisfy_all(), 0);
    assert!(!f.is_empty());
    let t = BDD::new_from(tree(leaf(true)));
    assert_eq!(t.len(), 1);
    assert_eq!(t.satisfy_one(), true);
    assert_eq!(t.satisfy_all(), 1);
}

#[test]
fn bdd_of_a_redundant_test_is_the_child() {
    let ff = BDD::new_from(tree(branch(7, leaf(false), leaf(false))));
    assert_eq!(ff.len(), 1);
    assert_eq!(ff.satisfy_one(), false);
    let mut arena = Arena::new();
    let t = arena.new_constant(true);
    let tt = arena.new_var(7, t, t);
    let tt = BDD::new_from(arena.node(tt));
    assert_eq!(tt.len(), 1);
    assert_eq!(tt.satisfy_one(), true);
    assert_eq!(tt.satisfy_all(), 1);
}

#[test]
fn bdd_sizes_of_the_examples() {
    let ind = BDD::new_from(example::independent_set());
    assert_eq!(ind.len(), 16);
    assert_eq!(ind.satisfy_one(), true);
    assert_eq!(ind.satisfy_all(), 11);
    let krn = BDD::new_from(example::kernels());
    assert_eq!(krn.len(), 17);
    assert_eq!(krn.satisfy_all(), 5);
    let maj = BDD::new_from(example::majority());
    assert_eq!(maj.len(), 6);
    assert_eq!(maj.satisfy_all(), 3);
    assert_eq!(BDD::new_from(example::x1x3()).len(), 4);
    assert_eq!(BDD::new_from(example::x2x3()).len(), 4);
    assert_eq!(BDD::new_from(example::x1x2x4()).len(), 6);
}

#[test]
fn bdd_all_nodes_are_distinct_and_as_many_as_len() {
    let maj = BDD::new_from(example::majority());
    let nodes = maj.all_nodes();
    assert_eq!(nodes.len(), maj.len());
    for i in 1..nodes.len() {
        assert!(nodes[i - 1] < nodes[i]);
    }
}

#[test]
fn bdd_reduce_is_idempotent() {
    let mut ind = BDD::new_from(example::independent_set());
    let before = text_of(&ind);
    ind.reduce();
    assert_eq!(ind.len(), 16);
    assert_eq!(text_of(&ind), before);
    ind.reduce();
    assert_eq!(text_of(&ind), before);
}

#[test]
fn bdd_is_the_same_for_every_tree_of_a_function() {
    // "at least two of 1, 2, 3", once as written in the examples and once
    // as the complete tree over the three variables
    let complete = tree(branch(
        1,
        branch(
            2,
            branch(3, leaf(false), leaf(false)),
            branch(3, leaf(false), leaf(true)),
        ),
        branch(
            2,
            branch(3, leaf(false), leaf(true)),
            branch(3, leaf(true), leaf(true)),
        ),
    ));
    assert_eq!(complete.len(), 15);
    let a = BDD::new_from(complete);
    let b = BDD::new_from(example::majority());
    assert_eq!(a.len(), 6);
    assert_eq!(text_of(&a), text_of(&b));
}

#[test]
fn bdd_apply_or() {
    let x1x3 = BDD::new_from(example::x1x3());
    let x2x3 = BDD::new_from(example::x2x3());
    let or = x1x3.apply(BooleanOperator::or(), true, &x2x3);
    assert_eq!(or.satisfy_one(), true);
    assert_eq!(or.satisfy_all(), 3);
    assert_eq!(or.len(), 5);
    // the same function, written down by hand: not 1, or 2, or not 3
    let expected = BDD::new_from(tree(branch(
        1,
        leaf(true),
        branch(2, branch(3, leaf(true), leaf(false)), leaf(true)),
    )));
    assert_eq!(text_of(&or), text_of(&expected));
}

#[test]
fn bdd_apply_and() {
    let x1x3 = BDD::new_from(example::x1x3());
    let x2x3 = BDD::new_from(example::x2x3());
    let and = x1x3.apply(BooleanOperator::and(), false, &x2x3);
    assert_eq!(and.satisfy_all(), 1);
    assert_eq!(and.len(), 5);
    let expected = BDD::new_from(tree(branch(
        1,
        branch(2, leaf(false), branch(3, leaf(false), leaf(true))),
        leaf(false),
    )));
    assert_eq!(text_of(&and), text_of(&expected));
}

#[test]
fn bdd_apply_xor_has_no_absorbing_value() {
    let x1x3 = BDD::new_from(example::x1x3());
    let x2x3 = BDD::new_from(example::x2x3());
    let with_true = x1x3.apply(BooleanOperator::xor(), true, &x2x3);
    let with_false = x1x3.apply(BooleanOperator::xor(), false, &x2x3);
    assert_eq!(with_true.satisfy_all(), 4);
    assert_eq!(with_true.len(), 6);
    assert_eq!(text_of(&with_true), text_of(&with_false));
}

#[test]
fn bdd_apply_on_larger_examples() {
    let maj = BDD::new_from(example::majority());
    let ind = BDD::new_from(example::independent_set());
    let and = maj.apply(BooleanOperator::and(), false, &ind);
    assert_eq!((and.len(), and.satisfy_all()), (7, 1));
    let or = maj.apply(BooleanOperator::or(), true, &ind);
    assert_eq!((or.len(), or.satisfy_all()), (15, 13));
    let xor = maj.apply(BooleanOperator::xor(), false, &ind);
    assert_eq!((xor.len(), xor.satisfy_all()), (17, 14));
}

#[test]
fn bdd_apply_with_a_terminal() {
    let t = BDD::new_from(tree(leaf(true)));
    let f = BDD::new_from(tree(leaf(false)));
    let maj = BDD::new_from(example::majority());
    assert_eq!(maj.apply(BooleanOperator::or(), true, &t).len(), 1);
    assert_eq!(maj.apply(BooleanOperator::or(), true, &t).satisfy_one(), true);
    assert_eq!(maj.apply(BooleanOperator::and(), false, &f).satisfy_one(), false);
    assert_eq!(text_of(&maj.apply(BooleanOperator::and(), false, &t)), text_of(&maj));
    assert_eq!(text_of(&f.apply(BooleanOperator::or(), true, &maj)), text_of(&maj));
    // the operator "not the first argument"
    let not_first = BooleanOperator::new(true, true, false, false);
    let neg = maj.apply(not_first, true, &t);
    assert_eq!(neg.len(), 6);
    assert_eq!(neg.satisfy_all(), 3);
    assert_eq!(text_of(&neg.apply(not_first, false, &f)), text_of(&maj));
}

#[test]
fn bdd_compose() {
    let x1x2x4 = BDD::new_from(example::x1x2x4());
    let x2x3 = BDD::new_from(example::x2x3());
    let composed = x1x2x4.compose(&x2x3, 2);
    assert_eq!(composed.len(), 8);
    assert_eq!(composed.satisfy_all(), 4);
    let expected = BDD::new_from(tree(branch(
        1,
        branch(
            2,
            leaf(true),
            branch(3, leaf(true), branch(4, leaf(true), leaf(false))),
        ),
        branch(2, leaf(false), branch(3, leaf(false), leaf(true))),
    )));
    assert_eq!(text_of(&composed), text_of(&expected));
}

#[test]
fn bdd_compose_with_a_constant_fixes_the_variable() {
    let maj = BDD::new_from(example::majority());
    let t = BDD::new_from(tree(leaf(true)));
    let f = BDD::new_from(tree(leaf(false)));
    // with 1 at true, two of three becomes one of 2 and 3
    let one_of = maj.compose(&t, 1);
    let expected = BDD::new_from(tree(branch(2, branch(3, leaf(false), leaf(true)), leaf(true))));
    assert_eq!(text_of(&one_of), text_of(&expected));
    // with 1 at false it becomes both of 2 and 3
    let both = maj.compose(&f, 1);
    assert_eq!(text_of(&both), text_of(&BDD::new_from(example::x2x3())));
    // a variable that does not occur
    assert_eq!(text_of(&maj.compose(&t, 9)), text_of(&maj));
}

#[test]
fn bdd_compose_on_a_larger_example() {
    let ind = BDD::new_from(example::independent_set());
    let maj = BDD::new_from(example::majority());
    let composed = ind.compose(&maj, 4);
    assert_eq!((composed.len(), composed.satisfy_all()), (9, 5));
}

#[test]
fn bdd_satisfy_one_agrees_with_satisfy_all() {
    let all = [
        BDD::new_from(tree(leaf(false))),
        BDD::new_from(tree(leaf(true))),
        BDD::new_from(example::independent_set()),
        BDD::new_from(example::kernels()),
        BDD::new_from(example::majority()),
        BDD::new_from(example::x1x3()),
        BDD::new_from(example::x2x3()),
        BDD::new_from(example::x1x2x4()),
    ];
    for d in all.iter() {
        assert_eq!(d.satisfy_one(), d.satisfy_all() > 0);
    }
}

#[test]
fn bdd_text_of_a_small_diagram() {
    let x2x3 = BDD::new_from(example::x2x3());
    let expected = "digraph regexp {{
  fontname=\"Helvetica,Arial,sans-serif\"
  node [fontname=\"Helvetica,Arial,sans-serif\"]
  edge [fontname=\"Helvetica,Arial,sans-serif\",color=blue]
  0[style=filled,fillcolor=\"gray80\",label=\"false\",shape=\"box\"];
  1[style=filled,fillcolor=\"gray95\",label=\"true\",shape=\"box\"];
  4[label=\"3\"];
  5[label=\"2\"];
  4 -> 0[color=red,style=\"dotted\"];
  4 -> 1[color=blue];
  5 -> 0[color=red,style=\"dotted\"];
  5 -> 4[color=blue];
}}
";
    assert_eq!(text_of(&x2x3), expected);
}

#[test]
fn bdd_text_is_appended_to_the_sink() {
    let f = BDD::new_from(tree(leaf(false)));
    let mut sink = String::from("// before\n");
    f.write_as_gv(&mut sink);
    assert!(sink.starts_with("// before\ndigraph regexp {{\n"));
    assert!(sink.ends_with("shape=\"box\"];\n}}\n"));
}
