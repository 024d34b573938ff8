use ddir::dd::{DecisionDiagram, ReducedDecisionDiagram};
use ddir::node::example;
use ddir::node::{Arena, Node};
use ddir::operator::BooleanOperator;
use ddir::zdd::ZDD;

enum Shape {
    Leaf(bool),
    Branch(usize, Box<Shape>, Box<Shape>),
}

fn leaf(b: bool) -> Shape {
    Shape::Leaf(b)
}

fn branch(v: usize, low: Shape, high: Shape) -> Shape {
    Shape::Branch(v, Box::new(low), Box::new(high))
}

fn write(arena: &mut Arena, shape: &Shape) -> usize {
    match shape {
        Shape::Leaf(b) => arena.new_constant(*b),
        Shape::Branch(v, low, high) => {
            let l = write(arena, low);
            let h = write(arena, high);
            arena.new_var(*v, l, h)
        }
    }
}

/// The tree of the given shape, every vertex of it made on its own.
fn tree(shape: Shape) -> Node {
    let mut arena = Arena::new();
    let root = write(&mut arena, &shape);
    arena.node(root)
}

fn zdd_text(diagram: &ZDD) -> String {
    let mut text = String::new();
    diagram.write_as_gv(&mut text);
    text
}

#[test]
fn test_satisfy_one() {
    let mut arena = Arena::new();
    let f = arena.new_constant(false);
    assert_eq!(ZDD::new_from(arena.node(f)).satisfy_one(), false);
    let ff = arena.new_var(2, f, f);
    let ff: Node = arena.node(ff);
    let zdd: ZDD = ZDD::new_from(ff);
    assert_eq!(zdd.satisfy_one(), false);
    let major = ZDD::new_from(example::majority());
    assert_eq!(major.satisfy_one(), true);
}

#[test]
fn test_satisfy_all() {
    let major = ZDD::new_from(example::majority());
    assert_eq!(major.satisfy_one(), true);
    assert_eq!(major.satisfy_all(), 3);
    let ind = ZDD::new_from(example::independent_set());
    assert_eq!(ind.satisfy_one(), true);
    assert_eq!(ind.satisfy_all(), 18);
}

#[test]
fn zdd_of_a_terminal_is_that_terminal() {
    let f = ZDD::new_from(tree(leaf(false)));
    assert_eq!(f.len(), 1);
    assert_eq!(f.satisfy_all(), 0);
    let t = ZDD::new_from(tree(leaf(true)));
    assert_eq!(t.len(), 1);
    assert_eq!(t.satisfy_all(), 1);
}

#[test]
fn zdd_drops_a_vertex_with_false_as_high_child() {
    let ff = ZDD::new_from(tree(branch(2, leaf(false), leaf(false))));
    assert_eq!(ff.len(), 1);
    assert_eq!(ff.satisfy_one(), false);
    let tf = ZDD::new_from(tree(branch(2, leaf(true), leaf(false))));
    assert_eq!(tf.len(), 1);
    assert_eq!(tf.satisfy_all(), 1);
    // equal children that are not false stay
    let tt = ZDD::new_from(tree(branch(2, leaf(true), leaf(true))));
    assert_eq!(tt.len(), 2);
    assert_eq!(tt.satisfy_all(), 2);
    let ft = ZDD::new_from(tree(branch(2, leaf(false), leaf(true))));
    assert_eq!(ft.len(), 3);
    assert_eq!(ft.satisfy_all(), 1);
}

#[test]
fn zdd_sizes_of_the_examples() {
    let ind = ZDD::new_from(example::independent_set());
    assert_eq!(ind.len(), 10);
    let krn = ZDD::new_from(example::kernels());
    assert_eq!(krn.len(), 10);
    assert_eq!(krn.satisfy_all(), 5);
    assert_eq!(ZDD::new_from(example::majority()).len(), 6);
    assert_eq!(ZDD::new_from(example::x1x3()).len(), 2);
    assert_eq!(ZDD::new_from(example::x2x3()).len(), 4);
    assert_eq!(ZDD::new_from(example::x1x2x4()).len(), 5);
}

#[test]
fn zdd_reduce_is_idempotent() {
    let mut ind = ZDD::new_from(example::independent_set());
    let before = zdd_text(&ind);
    ind.reduce();
    assert_eq!(ind.len(), 10);
    assert_eq!(ind.satisfy_all(), 18);
    assert_eq!(zdd_text(&ind), before);
}

#[test]
fn zdd_apply() {
    // the families {{}, {1}} and {{2, 3}}
    let x1x3 = ZDD::new_from(example::x1x3());
    let x2x3 = ZDD::new_from(example::x2x3());
    let or = x1x3.apply(BooleanOperator::or(), true, &x2x3);
    assert_eq!((or.len(), or.satisfy_all()), (5, 3));
    assert_eq!(or.satisfy_one(), true);
    let expected = ZDD::new_from(tree(branch(
        1,
        branch(2, leaf(true), branch(3, leaf(false), leaf(true))),
        leaf(true),
    )));
    assert_eq!(zdd_text(&or), zdd_text(&expected));
    let and = x1x3.apply(BooleanOperator::and(), false, &x2x3);
    assert_eq!((and.len(), and.satisfy_all()), (1, 0));
    assert_eq!(and.satisfy_one(), false);
    let xor = x1x3.apply(BooleanOperator::xor(), true, &x2x3);
    assert_eq!((xor.len(), xor.satisfy_all()), (5, 3));
    assert_eq!(zdd_text(&xor), zdd_text(&or));
    // the unit makes no difference
    let or_false = x1x3.apply(BooleanOperator::or(), false, &x2x3);
    assert_eq!(zdd_text(&or_false), zdd_text(&or));
    let and_true = x1x3.apply(BooleanOperator::and(), true, &x2x3);
    assert_eq!(zdd_text(&and_true), zdd_text(&and));
}

#[test]
fn zdd_apply_on_larger_examples() {
    let maj = ZDD::new_from(example::majority());
    let ind = ZDD::new_from(example::independent_set());
    let krn = ZDD::new_from(example::kernels());
    let or = maj.apply(BooleanOperator::or(), true, &ind);
    assert_eq!((or.len(), or.satisfy_all()), (12, 20));
    let and = maj.apply(BooleanOperator::and(), false, &ind);
    assert_eq!((and.len(), and.satisfy_all()), (4, 1));
    let xor = maj.apply(BooleanOperator::xor(), false, &ind);
    assert_eq!((xor.len(), xor.satisfy_all()), (14, 19));
    // every kernel is an independent set
    let both = ind.apply(BooleanOperator::and(), false, &krn);
    assert_eq!(zdd_text(&both), zdd_text(&krn));
    let rest = ind.apply(BooleanOperator::new(false, false, true, false), false, &krn);
    assert_eq!((rest.len(), rest.satisfy_all()), (10, 13));
}

#[test]
fn zdd_apply_with_the_smallest_families() {
    let mut arena = Arena::new();
    let t = arena.new_constant(true);
    let f = arena.new_constant(false);
    let one = arena.new_var(1, f, t);
    let empty_set = ZDD::new_from(arena.node(t));
    let nothing = ZDD::new_from(arena.node(f));
    let set_of_one = ZDD::new_from(arena.node(one));
    // no set is in both {{}} and {{1}}
    let and = empty_set.apply(BooleanOperator::and(), false, &set_of_one);
    assert_eq!(and.satisfy_all(), 0);
    assert_eq!(zdd_text(&and), zdd_text(&nothing));
    let or = empty_set.apply(BooleanOperator::or(), true, &set_of_one);
    assert_eq!((or.len(), or.satisfy_all()), (2, 2));
    assert_eq!(zdd_text(&set_of_one.apply(BooleanOperator::or(), true, &nothing)), zdd_text(&set_of_one));
    assert_eq!(zdd_text(&nothing.apply(BooleanOperator::or(), false, &empty_set)), zdd_text(&empty_set));
    assert_eq!(zdd_text(&set_of_one.apply(BooleanOperator::xor(), false, &set_of_one)), zdd_text(&nothing));
}

#[test]
fn zdd_compose() {
    // only the empty set and {2} remain of the example with 2 replaced by {{2, 3}}
    let x1x2x4 = ZDD::new_from(example::x1x2x4());
    let x2x3 = ZDD::new_from(example::x2x3());
    let composed = x1x2x4.compose(&x2x3, 2);
    assert_eq!((composed.len(), composed.satisfy_all()), (2, 2));
    let expected = ZDD::new_from(tree(branch(2, leaf(true), leaf(true))));
    assert_eq!(zdd_text(&composed), zdd_text(&expected));
    let ind = ZDD::new_from(example::independent_set());
    let maj = ZDD::new_from(example::majority());
    let larger = ind.compose(&maj, 4);
    assert_eq!((larger.len(), larger.satisfy_all()), (13, 25));
}

#[test]
fn zdd_compose_with_the_smallest_families() {
    let mut arena = Arena::new();
    let t = arena.new_constant(true);
    let f = arena.new_constant(false);
    let one = arena.new_var(1, f, t);
    let two = arena.new_var(2, f, t);
    let nothing = ZDD::new_from(arena.node(f));
    let empty_set = ZDD::new_from(arena.node(t));
    let set_of_one = ZDD::new_from(arena.node(one));
    let set_of_two = ZDD::new_from(arena.node(two));
    // {1, 2} is not in {{1}}
    let composed = set_of_one.compose(&set_of_two, 1);
    assert_eq!(composed.satisfy_one(), false);
    assert_eq!(zdd_text(&composed), zdd_text(&nothing));
    // with 1 replaced by a family that holds no set, 1 is taken out of the
    // question: {2, 3} and {1, 2, 3} remain of the three pairs
    let maj = ZDD::new_from(example::majority());
    let without = maj.compose(&nothing, 1);
    assert_eq!((without.len(), without.satisfy_all()), (5, 2));
    assert_eq!(zdd_text(&maj.compose(&empty_set, 1)), zdd_text(&without));
    // a variable that does not occur then occurs in half of the sets
    let wider = maj.compose(&nothing, 9);
    assert_eq!((wider.len(), wider.satisfy_all()), (7, 6));
}

#[test]
fn zdd_satisfy_one_agrees_with_satisfy_all() {
    let all = [
        ZDD::new_from(tree(leaf(false))),
        ZDD::new_from(tree(leaf(true))),
        ZDD::new_from(example::independent_set()),
        ZDD::new_from(example::kernels()),
        ZDD::new_from(example::majority()),
        ZDD::new_from(example::x1x3()),
        ZDD::new_from(example::x2x3()),
        ZDD::new_from(example::x1x2x4()),
    ];
    for d in all.iter() {
        assert_eq!(d.satisfy_one(), d.satisfy_all() > 0);
    }
}

#[test]
fn zdd_text_of_a_small_diagram() {
    let x1x3 = ZDD::new_from(example::x1x3());
    let expected = "digraph regexp {{
  fontname=\"Helvetica,Arial,sans-serif\"
  node [fontname=\"Helvetica,Arial,sans-serif\"]
  edge [fontname=\"Helvetica,Arial,sans-serif\",color=blue]
  0[style=filled,fillcolor=\"gray80\",label=\"false\",shape=\"box\"];
  1[style=filled,fillcolor=\"gray95\",label=\"true\",shape=\"box\"];
  4[label=\"1\"];
  4 -> 1[color=black,penwidth=2];
}}
";
    assert_eq!(zdd_text(&x1x3), expected);
}
