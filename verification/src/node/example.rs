//! Small functions from the literature, written down as decision trees.
use vstd::prelude::*;
use crate::arena::{
    laid_out, lemma_laid_out_agree, lemma_laid_out_count, lemma_tree_at_agree, tree_at,
};
use crate::node::{Arena, Node};
use crate::tree::Tree;

verus! {

/// The tree that decides on each of the variables `v..=last` in turn and
/// ends in the value of `holds` on the set of the variables taken at 1,
/// `chosen` being those taken so far.
pub open spec fn full_tree(
    holds: spec_fn(Set<nat>) -> bool,
    v: nat,
    last: nat,
    chosen: Set<nat>,
) -> Tree
    decreases last + 1 - v,
{
    if v > last {
        Tree::Leaf(holds(chosen))
    } else {
        Tree::Branch(
            v,
            Box::new(full_tree(holds, v + 1, last, chosen)),
            Box::new(full_tree(holds, v + 1, last, chosen.insert(v))),
        )
    }
}

/// Whether `s` holds no two neighbours on the cycle 1, 2, 3, 4, 5, 6, 1.
pub open spec fn independent(s: Set<nat>) -> bool {
    &&& !(s.contains(1) && s.contains(2))
    &&& !(s.contains(2) && s.contains(3))
    &&& !(s.contains(3) && s.contains(4))
    &&& !(s.contains(4) && s.contains(5))
    &&& !(s.contains(5) && s.contains(6))
    &&& !(s.contains(6) && s.contains(1))
}

/// Whether `s` is independent on the cycle and no further vertex can join
/// it: of any three vertices in a row one is in `s`.
pub open spec fn kernel(s: Set<nat>) -> bool {
    &&& independent(s)
    &&& (s.contains(6) || s.contains(1) || s.contains(2))
    &&& (s.contains(1) || s.contains(2) || s.contains(3))
    &&& (s.contains(2) || s.contains(3) || s.contains(4))
    &&& (s.contains(3) || s.contains(4) || s.contains(5))
    &&& (s.contains(4) || s.contains(5) || s.contains(6))
    &&& (s.contains(5) || s.contains(6) || s.contains(1))
}

/// A branch on `v` above `low` and `high`.
pub open spec fn branch(v: nat, low: Tree, high: Tree) -> Tree {
    Tree::Branch(v, Box::new(low), Box::new(high))
}

/// The tree of "at least two of the variables 1, 2, 3".
pub open spec fn majority_tree() -> Tree {
    branch(
        1,
        branch(2, Tree::Leaf(false), branch(3, Tree::Leaf(false), Tree::Leaf(true))),
        branch(2, branch(3, Tree::Leaf(false), Tree::Leaf(true)), Tree::Leaf(true)),
    )
}

/// The tree of "not both of the variables 1 and 3".
pub open spec fn x1x3_tree() -> Tree {
    branch(1, Tree::Leaf(true), branch(3, Tree::Leaf(true), Tree::Leaf(false)))
}

/// The tree of "both of the variables 2 and 3".
pub open spec fn x2x3_tree() -> Tree {
    branch(2, Tree::Leaf(false), branch(3, Tree::Leaf(false), Tree::Leaf(true)))
}

/// The tree of "variable 1 and variable 2 agree, or variable 1 and
/// variable 4 are both 0".
pub open spec fn x1x2x4_tree() -> Tree {
    branch(
        1,
        branch(2, Tree::Leaf(true), branch(4, Tree::Leaf(true), Tree::Leaf(false))),
        branch(2, Tree::Leaf(false), Tree::Leaf(true)),
    )
}

/// The complete tree of `holds` has, at every assignment, the value of
/// `holds` on the variables chosen so far together with those of `v..=last`
/// that the assignment sets to 1.
pub proof fn lemma_full_tree_eval(
    holds: spec_fn(Set<nat>) -> bool,
    v: nat,
    last: nat,
    chosen: Set<nat>,
    x: Set<nat>,
)
    ensures
        full_tree(holds, v, last, chosen).eval(x) == holds(
            chosen + x.filter(|u: nat| v <= u <= last),
        ),
    decreases last + 1 - v,
{
    let here = x.filter(|u: nat| v <= u <= last);
    if v > last {
        assert(chosen + here =~= chosen);
    } else {
        let rest = x.filter(|u: nat| v + 1 <= u <= last);
        if x.contains(v) {
            lemma_full_tree_eval(holds, v + 1, last, chosen.insert(v), x);
            assert(chosen.insert(v) + rest =~= chosen + here);
        } else {
            lemma_full_tree_eval(holds, v + 1, last, chosen, x);
            assert(chosen + rest =~= chosen + here);
        }
    }
}

/// The family of the complete tree of `holds` consists of the sets of
/// variables of `v..=last` on which, together with the variables chosen so
/// far, `holds` is true.
pub proof fn lemma_full_tree_family(
    holds: spec_fn(Set<nat>) -> bool,
    v: nat,
    last: nat,
    chosen: Set<nat>,
    s: Set<nat>,
)
    ensures
        full_tree(holds, v, last, chosen).in_family(s) == ((forall|u: nat|
            s.contains(u) ==> v <= u <= last) && holds(chosen + s)),
    decreases last + 1 - v,
{
    if v > last {
        if forall|u: nat| s.contains(u) ==> v <= u <= last {
            assert(s =~= Set::<nat>::empty());
        }
        assert(chosen + Set::<nat>::empty() =~= chosen);
    } else {
        lemma_full_tree_family(holds, v + 1, last, chosen, s);
        lemma_full_tree_family(holds, v + 1, last, chosen.insert(v), s.remove(v));
        if s.contains(v) {
            assert(chosen.insert(v) + s.remove(v) =~= chosen + s);
            if forall|u: nat| s.contains(u) ==> v <= u <= last {
                assert forall|u: nat| s.remove(v).contains(u) implies v + 1 <= u <= last by {
                    assert(s.contains(u));
                }
            }
            if forall|u: nat| s.remove(v).contains(u) ==> v + 1 <= u <= last {
                assert forall|u: nat| s.contains(u) implies v <= u <= last by {
                    if u != v {
                        assert(s.remove(v).contains(u));
                    }
                }
            }
        }
    }
}

/// What the small trees denote: their values at the assignment that sets
/// exactly the variables in `x` to 1.
pub proof fn lemma_small_trees(x: Set<nat>)
    ensures
        majority_tree().eval(x) == ((x.contains(1) && x.contains(2)) || (x.contains(1)
            && x.contains(3)) || (x.contains(2) && x.contains(3))),
        x1x3_tree().eval(x) == !(x.contains(1) && x.contains(3)),
        x2x3_tree().eval(x) == (x.contains(2) && x.contains(3)),
        x1x2x4_tree().eval(x) == ((x.contains(1) == x.contains(2)) || (!x.contains(1)
            && !x.contains(4))),
{
    reveal_with_fuel(Tree::eval, 5);
}

/// The number of leaves of the complete tree over the variables `v..=last`.
pub open spec fn width(v: nat, last: nat) -> nat
    decreases last + 1 - v,
{
    if v > last {
        1
    } else {
        2 * width(v + 1, last)
    }
}

/// The complete tree over the variables `v..=last` whose leaves are, from
/// the one where every variable is 0 to the one where every variable is 1,
/// the entries of `leaves` from `offset` on.
pub open spec fn table_tree(leaves: Seq<bool>, v: nat, last: nat, offset: int) -> Tree
    decreases last + 1 - v,
{
    if v > last {
        Tree::Leaf(leaves[offset])
    } else {
        branch(
            v,
            table_tree(leaves, v + 1, last, offset),
            table_tree(leaves, v + 1, last, offset + width(v + 1, last)),
        )
    }
}

/// A complete tree has a leaf.
pub proof fn lemma_width_positive(v: nat, last: nat)
    ensures
        width(v, last) >= 1,
    decreases last + 1 - v,
{
    if v <= last {
        lemma_width_positive(v + 1, last);
    }
}

/// Writes the complete tree over the variables `v..=last` with the given
/// leaves into the arena, every vertex of it on its own and children before
/// their parents, and gives the handle of its root.
fn complete(
    arena: &mut Arena,
    leaves: &Vec<bool>,
    v: usize,
    last: usize,
    offset: usize,
) -> (h: usize)
    requires
        old(arena).wf(),
        last < usize::MAX,
        v <= last + 1,
        offset + width(v as nat, last as nat) <= leaves.len(),
    ensures
        final(arena).wf(),
        forall|k: int|
            0 <= k < old(arena)@.len() ==> #[trigger] final(arena)@[k] == old(arena)@[k],
        final(arena)@.len() == old(arena)@.len() + 2 * width(v as nat, last as nat) - 1,
        h == final(arena)@.len() - 1,
        tree_at(final(arena)@, h as int) == table_tree(
            leaves@,
            v as nat,
            last as nat,
            offset as int,
        ),
        laid_out(final(arena)@, h as int, old(arena)@.len() as int),
    decreases last + 1 - v,
{
    proof {
        lemma_width_positive(v as nat, last as nat);
        lemma_width_positive((v + 1) as nat, last as nat);
    }
    if v > last {
        arena.new_constant(leaves[offset])
    } else {
        let before = arena.len();
        let low = complete(arena, leaves, v + 1, last, offset);
        let ghost below = arena@;
        let leaves_below = (arena.len() - before) / 2 + 1;
        let high = complete(arena, leaves, v + 1, last, offset + leaves_below);
        let ghost beside = arena@;
        let h = arena.new_var(v, low, high);
        proof {
            lemma_tree_at_agree(below, arena@, low as int);
            lemma_tree_at_agree(beside, arena@, high as int);
            lemma_laid_out_agree(below, arena@, low as int, before as int);
            lemma_laid_out_agree(beside, arena@, high as int, low + 1);
        }
        h
    }
}

/// The independent sets of the cycle of six vertices, as the complete tree
/// over the variables 1 to 6, every vertex of it made on its own. The leaves
/// are written down from the assignment with every variable at 0 to the one
/// with every variable at 1, variable 6 changing fastest.
pub fn independent_set() -> (r: Node)
    ensures
        r@ == full_tree(|s: Set<nat>| independent(s), 1, 6, Set::empty()),
        r@.ordered(),
        r@.count_paths() == 18,
        r.node_count() == 127,
{
    let leaves: Vec<bool> = vec![
        true, true, true, false, true, true, false, false,
        true, true, true, false, false, false, false, false,
        true, true, true, false, true, true, false, false,
        false, false, false, false, false, false, false, false,
        true, false, true, false, true, false, false, false,
        true, false, true, false, false, false, false, false,
        false, false, false, false, false, false, false, false,
        false, false, false, false, false, false, false, false,
    ];
    proof {
        reveal_with_fuel(width, 8);
    }
    let mut arena = Arena::new();
    let root = complete(&mut arena, &leaves, 1, 6, 0);
    proof {
        reveal_with_fuel(table_tree, 8);
        reveal_with_fuel(full_tree, 8);
        reveal_with_fuel(Tree::ordered, 8);
        reveal_with_fuel(Tree::count_paths, 8);
        lemma_laid_out_count(arena@, root as int, 0);
    }
    arena.node(root)
}

/// The kernels of the cycle of six vertices, that is its maximal independent
/// sets, as the complete tree over the variables 1 to 6, every vertex of it
/// made on its own, with the leaves in the same order.
pub fn kernels() -> (r: Node)
    ensures
        r@ == full_tree(|s: Set<nat>| kernel(s), 1, 6, Set::empty()),
        r@.ordered(),
        r@.count_paths() == 5,
        r.node_count() == 127,
{
    let leaves: Vec<bool> = vec![
        false, false, false, false, false, false, false, false,
        false, true, false, false, false, false, false, false,
        false, false, true, false, false, true, false, false,
        false, false, false, false, false, false, false, false,
        false, false, false, false, true, false, false, false,
        false, false, true, false, false, false, false, false,
        false, false, false, false, false, false, false, false,
        false, false, false, false, false, false, false, false,
    ];
    proof {
        reveal_with_fuel(width, 8);
    }
    let mut arena = Arena::new();
    let root = complete(&mut arena, &leaves, 1, 6, 0);
    proof {
        reveal_with_fuel(table_tree, 8);
        reveal_with_fuel(full_tree, 8);
        reveal_with_fuel(Tree::ordered, 8);
        reveal_with_fuel(Tree::count_paths, 8);
        lemma_laid_out_count(arena@, root as int, 0);
    }
    arena.node(root)
}

/// The tree of "at least two of the variables 1, 2, 3".
pub fn majority() -> (r: Node)
    ensures
        r@ == majority_tree(),
        r@.ordered(),
        r@.count_paths() == 3,
        r.node_count() == 11,
{
    let mut arena = Arena::new();
    let n0 = arena.new_constant(false);
    let n1 = arena.new_constant(false);
    let n2 = arena.new_constant(true);
    let n3 = arena.new_var(3, n1, n2);
    let n4 = arena.new_var(2, n0, n3);
    let n5 = arena.new_constant(false);
    let n6 = arena.new_constant(true);
    let n7 = arena.new_var(3, n5, n6);
    let n8 = arena.new_constant(true);
    let n9 = arena.new_var(2, n7, n8);
    let n10 = arena.new_var(1, n4, n9);
    proof {
        reveal_with_fuel(tree_at, 5);
        reveal_with_fuel(laid_out, 5);
        reveal_with_fuel(Tree::ordered, 5);
        reveal_with_fuel(Tree::count_paths, 5);
        lemma_laid_out_count(arena@, 10, 0);
    }
    arena.node(n10)
}

/// The tree of "not both of the variables 1 and 3".
pub fn x1x3() -> (r: Node)
    ensures
        r@ == x1x3_tree(),
        r@.ordered(),
        r@.count_paths() == 2,
        r.node_count() == 5,
{
    let mut arena = Arena::new();
    let n0 = arena.new_constant(true);
    let n1 = arena.new_constant(true);
    let n2 = arena.new_constant(false);
    let n3 = arena.new_var(3, n1, n2);
    let n4 = arena.new_var(1, n0, n3);
    proof {
        reveal_with_fuel(tree_at, 4);
        reveal_with_fuel(laid_out, 4);
        reveal_with_fuel(Tree::ordered, 4);
        reveal_with_fuel(Tree::count_paths, 4);
        lemma_laid_out_count(arena@, 4, 0);
    }
    arena.node(n4)
}

/// The tree of "both of the variables 2 and 3".
pub fn x2x3() -> (r: Node)
    ensures
        r@ == x2x3_tree(),
        r@.ordered(),
        r@.count_paths() == 1,
        r.node_count() == 5,
{
    let mut arena = Arena::new();
    let n0 = arena.new_constant(false);
    let n1 = arena.new_constant(false);
    let n2 = arena.new_constant(true);
    let n3 = arena.new_var(3, n1, n2);
    let n4 = arena.new_var(2, n0, n3);
    proof {
        reveal_with_fuel(tree_at, 4);
        reveal_with_fuel(laid_out, 4);
        reveal_with_fuel(Tree::ordered, 4);
        reveal_with_fuel(Tree::count_paths, 4);
        lemma_laid_out_count(arena@, 4, 0);
    }
    arena.node(n4)
}

/// A tree over the variables 1, 2 and 4.
pub fn x1x2x4() -> (r: Node)
    ensures
        r@ == x1x2x4_tree(),
        r@.ordered(),
        r@.count_paths() == 3,
        r.node_count() == 9,
{
    let mut arena = Arena::new();
    let n0 = arena.new_constant(true);
    let n1 = arena.new_constant(true);
    let n2 = arena.new_constant(false);
    let n3 = arena.new_var(4, n1, n2);
    let n4 = arena.new_var(2, n0, n3);
    let n5 = arena.new_constant(false);
    let n6 = arena.new_constant(true);
    let n7 = arena.new_var(2, n5, n6);
    let n8 = arena.new_var(1, n4, n7);
    proof {
        reveal_with_fuel(tree_at, 5);
        reveal_with_fuel(laid_out, 5);
        reveal_with_fuel(Tree::ordered, 5);
        reveal_with_fuel(Tree::count_paths, 5);
        lemma_laid_out_count(arena@, 8, 0);
    }
    arena.node(n8)
}

} // verus!
