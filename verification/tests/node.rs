use ddir::dd::DecisionDiagram;
use ddir::node::example;
use ddir::node::{Arena, Node, Vertex};

enum Shape {
    Leaf(bool),
    Branch(usize, Box<Shape>, Box<Shape>),
}

fn leaf(b: bool) -> Shape {
    Shape::Leaf(b)
}

fn branch(v: usize, low: Shape, high: Shape) -> Shape {
    Shape::Branch(v, Box::new(low), Box::new(high))
}

fn write(arena: &mut Arena, shape: &Shape) -> usize {
    match shape {
        Shape::Leaf(b) => arena.new_constant(*b),
        Shape::Branch(v, low, high) => {
            let l = write(arena, low);
            let h = write(arena, high);
            arena.new_var(*v, l, h)
        }
    }
}

/// The tree of the given shape, every vertex of it made on its own.
fn tree(shape: Shape) -> Node {
    let mut arena = Arena::new();
    let root = write(&mut arena, &shape);
    arena.node(root)
}

#[test]
fn test_satisfy() {
    let mut arena = Arena::new();
    let f = arena.new_constant(false);
    let f = arena.node(f);
    assert_eq!(f.satisfy_one(), false);
    assert_eq!(f.satisfy_all(), 0);
    let t = arena.new_constant(true);
    let tt = arena.new_var(2, t, t);
    let t = arena.node(t);
    assert_eq!(t.satisfy_one(), true);
    assert_eq!(t.satisfy_all(), 1);
    let tt: Node = arena.node(tt);
    assert_eq!(tt.satisfy_one(), true);
    assert_eq!(tt.satisfy_all(), 2);
    let major = example::majority();
    assert_eq!(major.satisfy_one(), true);
    assert_eq!(major.satisfy_all(), 3);
    let ind = example::independent_set();
    assert_eq!(ind.satisfy_one(), true);
    assert_eq!(ind.satisfy_all(), 18);
}

#[test]
fn node_shared_by_several_parents_is_counted_once() {
    let mut arena = Arena::new();
    let f = arena.new_constant(false);
    let n = arena.new_var(2, f, f);
    let k = arena.new_var(1, n, f);
    assert_eq!(arena.len(), 3);
    let f = arena.node(f);
    assert_eq!(f.len(), 1);
    assert!(!f.is_empty());
    let n = arena.node(n);
    assert_eq!(n.len(), 2);
    assert_eq!(n.all_nodes(), vec![0, 1]);
    let k = arena.node(k);
    assert_eq!(k.len(), 3);
    assert_eq!(k.all_nodes().len(), 3);
    assert_eq!(k.all_nodes(), vec![0, 1, 2]);
    assert_eq!(k.root(), 2);
    // every path ends in the one terminal, which is false
    assert_eq!(n.satisfy_all(), 0);
    assert_eq!(k.satisfy_one(), false);
}

#[test]
fn node_vertices_made_separately_are_counted_separately() {
    let mut arena = Arena::new();
    let f1 = arena.new_constant(false);
    let f2 = arena.new_constant(false);
    let n = arena.new_var(2, f1, f2);
    assert_eq!(arena.node(n).len(), 3);
    // a vertex of the arena that the root does not reach is not counted
    let t = arena.new_constant(true);
    let m = arena.new_var(1, f1, t);
    let m = arena.node(m);
    assert_eq!(m.len(), 3);
    assert_eq!(m.all_nodes(), vec![0, 3, 4]);
}

#[test]
fn node_sizes_of_the_examples() {
    assert_eq!(example::independent_set().len(), 127);
    assert_eq!(example::kernels().len(), 127);
    assert_eq!(example::majority().len(), 11);
    assert_eq!(example::x1x3().len(), 5);
    assert_eq!(example::x2x3().len(), 5);
    assert_eq!(example::x1x2x4().len(), 9);
}

#[test]
fn node_counts_of_the_examples() {
    assert_eq!(example::kernels().satisfy_all(), 5);
    assert_eq!(example::kernels().satisfy_one(), true);
    assert_eq!(example::x1x3().satisfy_all(), 2);
    assert_eq!(example::x2x3().satisfy_all(), 1);
    assert_eq!(example::x1x2x4().satisfy_all(), 3);
    assert_eq!(example::x1x2x4().checked_satisfy_all(), Some(3));
}

#[test]
fn node_examples_are_the_trees_of_the_literature() {
    // the independent sets of the cycle 1, ..., 6, 1, by their first variables
    let ind = example::independent_set();
    assert_eq!(ind.var_index(), Some(1));
    let with_1 = ind.high().unwrap();
    assert_eq!(with_1.satisfy_all(), 5);
    let without_1 = ind.low().unwrap();
    assert_eq!(without_1.satisfy_all(), 13);
    assert_eq!(with_1.high().unwrap().satisfy_one(), false);
    // the kernels with 1 are {1, 4} and {1, 3, 5}
    let krn = example::kernels();
    assert_eq!(krn.high().unwrap().satisfy_all(), 2);
    assert_eq!(krn.low().unwrap().satisfy_all(), 3);
}

#[test]
fn node_accessors() {
    let mut arena = Arena::new();
    let f = arena.new_constant(false);
    let t = arena.new_constant(true);
    let n = arena.new_var(2, f, t);
    let k = arena.new_var(0, n, f);
    let f = arena.node(f);
    let t = arena.node(t);
    assert_eq!(f.is_constant(), Some(false));
    assert_eq!(t.is_constant(), Some(true));
    assert_eq!(f.var_index(), None);
    assert!(f.low().is_none());
    assert!(f.high().is_none());
    assert_eq!(f.unified_key(), 0);
    assert_eq!(t.unified_key(), 1);
    let n = arena.node(n);
    assert_eq!(n.is_constant(), None);
    assert_eq!(n.var_index(), Some(2));
    assert_eq!(n.unified_key(), 4);
    assert_eq!(n.low().unwrap().is_constant(), Some(false));
    assert_eq!(n.high().unwrap().is_constant(), Some(true));
    let k = arena.node(k);
    assert_eq!(k.unified_key(), 2);
    assert_eq!(k.low().unwrap().var_index(), Some(2));
    assert_eq!(k.low().unwrap().len(), 3);
    assert_eq!(k.low().unwrap().high().unwrap().is_constant(), Some(true));
    assert_eq!(k.high().unwrap().is_constant(), Some(false));
    assert_eq!(k.root(), 3);
    assert_eq!(k.vertex(3), Some(Vertex::Var { var_index: 0, low: 2, high: 0 }));
    assert_eq!(k.vertex(2), Some(Vertex::Var { var_index: 2, low: 0, high: 1 }));
    assert_eq!(k.vertex(0), Some(Vertex::Bool(false)));
    assert_eq!(k.vertex(4), None);
}

#[test]
fn node_children_of_an_example() {
    let maj = example::majority();
    let low = maj.low().unwrap();
    let high = maj.high().unwrap();
    assert_eq!(low.var_index(), Some(2));
    assert_eq!(high.var_index(), Some(2));
    assert_eq!(low.satisfy_all(), 1);
    assert_eq!(high.satisfy_all(), 2);
    assert_eq!(low.len(), 5);
    assert_eq!(high.len(), 5);
}

#[test]
fn node_default_is_false() {
    assert_eq!(Node::default().is_constant(), Some(false));
    assert_eq!(Node::default().len(), 1);
    assert_eq!(Vertex::default(), Vertex::Bool(false));
}

#[test]
fn node_is_ordered() {
    assert!(tree(leaf(false)).is_ordered());
    assert!(example::independent_set().is_ordered());
    assert!(example::kernels().is_ordered());
    assert!(example::majority().is_ordered());
    assert!(example::x1x3().is_ordered());
    assert!(tree(branch(1, leaf(false), branch(3, leaf(false), leaf(true)))).is_ordered());
    // the same variable twice on a path
    assert!(!tree(branch(1, leaf(false), branch(1, leaf(false), leaf(true)))).is_ordered());
    // a smaller variable below a greater one
    assert!(!tree(branch(3, branch(2, leaf(false), leaf(true)), leaf(true))).is_ordered());
    assert!(!tree(branch(
        0,
        branch(3, branch(2, leaf(false), leaf(true)), leaf(true)),
        leaf(true)
    ))
    .is_ordered());
}

#[test]
fn node_satisfy_one_agrees_with_satisfy_all() {
    let all = [
        tree(leaf(false)),
        tree(leaf(true)),
        tree(branch(4, leaf(false), leaf(false))),
        example::independent_set(),
        example::kernels(),
        example::majority(),
        example::x1x3(),
        example::x2x3(),
        example::x1x2x4(),
    ];
    for d in all.iter() {
        assert_eq!(d.satisfy_one(), d.satisfy_all() > 0);
    }
}

#[test]
fn node_count_of_paths_that_does_not_fit() {
    // a chain of 70 vertices with both edges to the next: 2^70 paths
    let mut arena = Arena::new();
    let mut below = arena.new_constant(true);
    let mut v = 70;
    while v > 0 {
        below = arena.new_var(v, below, below);
        v -= 1;
    }
    let chain = arena.node(below);
    assert_eq!(chain.len(), 71);
    assert_eq!(chain.satisfy_one(), true);
    assert_eq!(chain.checked_satisfy_all(), None);
    // 2^40 paths fit
    let mut arena = Arena::new();
    let mut below = arena.new_constant(true);
    let mut v = 40;
    while v > 0 {
        below = arena.new_var(v, below, below);
        v -= 1;
    }
    assert_eq!(arena.node(below).checked_satisfy_all(), Some(1 << 40));
}

#[test]
fn node_text_of_a_vertex_above_one_child() {
    let mut arena = Arena::new();
    let f = arena.new_constant(false);
    let n = arena.new_var(2, f, f);
    let n = arena.node(n);
    let mut text = String::new();
    n.write_as_gv(&mut text);
    let expected = "digraph regexp {{
  fontname=\"Helvetica,Arial,sans-serif\"
  node [fontname=\"Helvetica,Arial,sans-serif\"]
  edge [fontname=\"Helvetica,Arial,sans-serif\",color=blue]
  0[style=filled,fillcolor=\"gray80\",label=\"false\",shape=\"box\"];
  1[style=filled,fillcolor=\"gray95\",label=\"true\",shape=\"box\"];
  3[label=\"2\"];
  3 -> 0[color=black,penwidth=2];
}}
";
    assert_eq!(text, expected);
}

#[test]
fn node_text_writes_large_numbers_in_decimal() {
    let n = tree(branch(1234567890, leaf(false), leaf(true)));
    let mut text = String::new();
    n.write_as_gv(&mut text);
    assert!(text.contains("  4[label=\"1234567890\"];\n"));
    assert!(text.contains("  4 -> 0[color=red,style=\"dotted\"];\n  4 -> 1[color=blue];\n"));
}
