//! What holds of the trees that reduction, application and composition yield.
use vstd::prelude::*;
use vstd::relations::injective_on;
use vstd::set_lib::{lemma_map_size, lemma_set_disjoint_lens};
use crate::operator::BooleanOperator;
use crate::tree::{least_var, least_var3, Rule, Tree};

verus! {

/// Reducing a tree as a binary decision diagram keeps its value at every
/// assignment.
pub proof fn lemma_reduced_eval(t: Tree, x: Set<nat>)
    ensures
        t.reduced(Rule::Bdd).eval(x) == t.eval(x),
    decreases t,
{
    match t {
        Tree::Leaf(_) => {},
        Tree::Branch(_, low, high) => {
            lemma_reduced_eval(*low, x);
            lemma_reduced_eval(*high, x);
        },
    }
}

/// Reducing a tree as a zero-suppressed diagram keeps the family of sets
/// that it denotes, and the number of its paths to true.
pub proof fn lemma_reduced_family(t: Tree, s: Set<nat>)
    ensures
        t.reduced(Rule::Zdd).in_family(s) == t.in_family(s),
        t.reduced(Rule::Zdd).count_paths() == t.count_paths(),
    decreases t,
{
    match t {
        Tree::Leaf(_) => {},
        Tree::Branch(v, low, high) => {
            lemma_reduced_family(*low, s);
            lemma_reduced_family(*high, s);
            lemma_reduced_family(*high, s.remove(v));
        },
    }
}

/// Reducing a tree under either rule keeps whether a path leads to true.
pub proof fn lemma_reduced_satisfiable(t: Tree, rule: Rule)
    ensures
        t.reduced(rule).satisfiable() == t.satisfiable(),
    decreases t,
{
    match t {
        Tree::Leaf(_) => {},
        Tree::Branch(_, low, high) => {
            lemma_reduced_satisfiable(*low, rule);
            lemma_reduced_satisfiable(*high, rule);
        },
    }
}

/// The reduced form of a tree is reduced; where the tree stands above a
/// variable, or is ordered, so does and is its reduced form.
pub proof fn lemma_reduced_is_reduced(t: Tree, rule: Rule)
    ensures
        t.reduced(rule).is_reduced(rule),
        t.ordered() ==> t.reduced(rule).ordered(),
        forall|v: nat| t.ordered() && t.above(v) ==> #[trigger] t.reduced(rule).above(v),
    decreases t,
{
    match t {
        Tree::Leaf(_) => {},
        Tree::Branch(_, low, high) => {
            lemma_reduced_is_reduced(*low, rule);
            lemma_reduced_is_reduced(*high, rule);
        },
    }
}

/// A reduced tree is its own reduced form.
pub proof fn lemma_reduced_fixed(t: Tree, rule: Rule)
    requires
        t.is_reduced(rule),
    ensures
        t.reduced(rule) == t,
    decreases t,
{
    match t {
        Tree::Leaf(_) => {},
        Tree::Branch(_, low, high) => {
            lemma_reduced_fixed(*low, rule);
            lemma_reduced_fixed(*high, rule);
        },
    }
}

/// Reducing twice gives what reducing once gives.
pub proof fn lemma_reduced_idempotent(t: Tree, rule: Rule)
    ensures
        t.reduced(rule).reduced(rule) == t.reduced(rule),
{
    lemma_reduced_is_reduced(t, rule);
    lemma_reduced_fixed(t.reduced(rule), rule);
}

/// The combination of two trees as binary decision diagrams has, at every
/// assignment, the operator's value on the values of the two trees.
pub proof fn lemma_apply_eval(op: BooleanOperator, unit: bool, a: Tree, b: Tree, x: Set<nat>)
    ensures
        Tree::apply(Rule::Bdd, op, unit, a, b).eval(x) == op.eval(a.eval(x), b.eval(x)),
    decreases a.height() + b.height(),
{
    if Tree::cut_short(Rule::Bdd, op, unit) && (a == Tree::Leaf(unit) || b == Tree::Leaf(unit)) {
        assert(op.eval(unit, b.eval(x)) == unit && op.eval(a.eval(x), unit) == unit);
    } else {
        match (a, b) {
            (Tree::Leaf(_), Tree::Leaf(_)) => {},
            _ => {
                let k = least_var(a, b);
                lemma_apply_eval(op, unit, a.low_of(k), b.low_of(k), x);
                lemma_apply_eval(
                    op,
                    unit,
                    a.high_under(Rule::Bdd, k),
                    b.high_under(Rule::Bdd, k),
                    x,
                );
            },
        }
    }
}

/// The reduced combination of two trees as binary decision diagrams has, at
/// every assignment, the operator's value on the values of the two trees.
pub proof fn lemma_bdd_apply_eval(op: BooleanOperator, unit: bool, a: Tree, b: Tree, x: Set<nat>)
    ensures
        Tree::apply(Rule::Bdd, op, unit, a, b).reduced(Rule::Bdd).eval(x) == op.eval(
            a.eval(x),
            b.eval(x),
        ),
{
    lemma_apply_eval(op, unit, a, b, x);
    lemma_reduced_eval(Tree::apply(Rule::Bdd, op, unit, a, b), x);
}

/// The reduced combination of two ordered trees as binary decision diagrams
/// does not depend on the value that is handed in as absorbing.
pub proof fn lemma_bdd_apply_unit(op: BooleanOperator, a: Tree, b: Tree)
    requires
        a.ordered(),
        b.ordered(),
    ensures
        Tree::apply(Rule::Bdd, op, true, a, b).reduced(Rule::Bdd) == Tree::apply(
            Rule::Bdd,
            op,
            false,
            a,
            b,
        ).reduced(Rule::Bdd),
{
    let with_true = Tree::apply(Rule::Bdd, op, true, a, b);
    let with_false = Tree::apply(Rule::Bdd, op, false, a, b);
    lemma_apply_ordered(Rule::Bdd, op, true, a, b);
    lemma_apply_ordered(Rule::Bdd, op, false, a, b);
    assert forall|x: Set<nat>| with_true.eval(x) == with_false.eval(x) by {
        lemma_apply_eval(op, true, a, b, x);
        lemma_apply_eval(op, false, a, b, x);
    }
    lemma_bdd_unique(with_true, with_false);
}

/// The combination of two ordered trees is ordered, and stands above every
/// variable that both stand above.
pub proof fn lemma_apply_ordered(rule: Rule, op: BooleanOperator, unit: bool, a: Tree, b: Tree)
    requires
        a.ordered(),
        b.ordered(),
    ensures
        Tree::apply(rule, op, unit, a, b).ordered(),
        forall|v: nat|
            a.above(v) && b.above(v) ==> #[trigger] Tree::apply(rule, op, unit, a, b).above(v),
    decreases a.height() + b.height(),
{
    if !(Tree::cut_short(rule, op, unit) && (a == Tree::Leaf(unit) || b == Tree::Leaf(unit))) {
        match (a, b) {
            (Tree::Leaf(_), Tree::Leaf(_)) => {},
            _ => {
                let k = least_var(a, b);
                lemma_apply_ordered(rule, op, unit, a.low_of(k), b.low_of(k));
                lemma_apply_ordered(rule, op, unit, a.high_under(rule, k), b.high_under(rule, k));
                assert(a.low_of(k).above(k) && b.low_of(k).above(k));
                assert(a.high_under(rule, k).above(k) && b.high_under(rule, k).above(k));
            },
        }
    }
}

/// What the cofactors of an ordered tree that does not branch below `k`
/// hold, read as families: a set with `k` is in the tree exactly if the set
/// without `k` is in the high cofactor, and it is not in the low cofactor; a
/// set without `k` is in the tree exactly if it is in the low cofactor.
pub proof fn lemma_family_cofactors(t: Tree, k: nat, s: Set<nat>)
    requires
        t.ordered(),
        t is Branch ==> k <= t->Branch_0,
    ensures
        t.low_of(k).ordered(),
        t.high_under(Rule::Zdd, k).ordered(),
        t.low_of(k).above(k),
        t.high_under(Rule::Zdd, k).above(k),
        s.contains(k) ==> !t.low_of(k).in_family(s) && t.in_family(s) == t.high_under(
            Rule::Zdd,
            k,
        ).in_family(s.remove(k)),
        !s.contains(k) ==> t.in_family(s) == t.low_of(k).in_family(s),
{
    if s.contains(k) && t.low_of(k).in_family(s) {
        lemma_family_support(t.low_of(k), k, s);
    }
    if s.contains(k) && t.in_family(s) && !(t is Branch && t->Branch_0 == k) {
        lemma_family_support(t, k, s);
    }
}

/// The combination of two ordered trees as zero-suppressed diagrams, by an
/// operator that is false where both its arguments are, holds a set exactly
/// if the operator holds on whether each of the two trees holds it.
pub proof fn lemma_apply_family(op: BooleanOperator, unit: bool, a: Tree, b: Tree, s: Set<nat>)
    requires
        a.ordered(),
        b.ordered(),
        !op.eval(false, false),
    ensures
        Tree::apply(Rule::Zdd, op, unit, a, b).in_family(s) == op.eval(
            a.in_family(s),
            b.in_family(s),
        ),
    decreases a.height() + b.height(),
{
    if Tree::cut_short(Rule::Zdd, op, unit) && (a == Tree::Leaf(unit) || b == Tree::Leaf(unit)) {
        assert(!op.eval(false, b.in_family(s)) && !op.eval(a.in_family(s), false));
    } else {
        match (a, b) {
            (Tree::Leaf(_), Tree::Leaf(_)) => {},
            _ => {
                let k = least_var(a, b);
                let low = Tree::apply(Rule::Zdd, op, unit, a.low_of(k), b.low_of(k));
                lemma_family_cofactors(a, k, s);
                lemma_family_cofactors(b, k, s);
                lemma_apply_family(op, unit, a.low_of(k), b.low_of(k), s);
                lemma_apply_family(
                    op,
                    unit,
                    a.high_under(Rule::Zdd, k),
                    b.high_under(Rule::Zdd, k),
                    s.remove(k),
                );
            },
        }
    }
}

/// The reduced combination of two ordered trees as zero-suppressed
/// diagrams, by an operator that is false where both its arguments are,
/// holds a set exactly if the operator holds on whether each of the two
/// trees holds it.
pub proof fn lemma_zdd_apply_family(
    op: BooleanOperator,
    unit: bool,
    a: Tree,
    b: Tree,
    s: Set<nat>,
)
    requires
        a.ordered(),
        b.ordered(),
        !op.eval(false, false),
    ensures
        Tree::apply(Rule::Zdd, op, unit, a, b).reduced(Rule::Zdd).in_family(s) == op.eval(
            a.in_family(s),
            b.in_family(s),
        ),
{
    lemma_apply_family(op, unit, a, b, s);
    lemma_reduced_family(Tree::apply(Rule::Zdd, op, unit, a, b), s);
}

/// The cofactors of an ordered tree are ordered.
proof fn lemma_cofactor_ordered(t: Tree, k: nat)
    requires
        t.ordered(),
    ensures
        t.low_of(k).ordered(),
        t.high_of(k).ordered(),
        t.low_of(k) == t || (t is Branch && t->Branch_0 == k),
        t.high_of(k) == t || (t is Branch && t->Branch_0 == k),
{
}

/// A subtree of an ordered tree that stands above `v` stands above `v` too
/// once a branch at its root is taken away.
proof fn lemma_cofactor_above(t: Tree, v: nat, k: nat)
    requires
        t.ordered(),
        t.above(v),
    ensures
        t.low_of(k).above(v),
        t.high_of(k).above(v),
        t.low_of(k).ordered(),
        t.high_of(k).ordered(),
{
}

/// The composition of ordered trees is ordered, and stands above every
/// variable that all three stand above.
pub proof fn lemma_compose_ordered(low: Tree, high: Tree, other: Tree, control: nat)
    requires
        low.ordered(),
        high.ordered(),
        other.ordered(),
    ensures
        Tree::compose(low, high, other, control).ordered(),
        forall|v: nat|
            low.above(v) && high.above(v) && other.above(v) ==> #[trigger] Tree::compose(
                low,
                high,
                other,
                control,
            ).above(v),
    decreases low, high, other,
{
    let l = low.low_of(control);
    let h = high.high_of(control);
    match (l, h, other) {
        (Tree::Leaf(_), Tree::Leaf(_), Tree::Leaf(_)) => {},
        _ => {
            let k = least_var3(l, h, other);
            lemma_cofactor_ordered(low, control);
            lemma_cofactor_ordered(high, control);
            lemma_cofactor_ordered(l, k);
            lemma_cofactor_ordered(h, k);
            lemma_cofactor_ordered(other, k);
            lemma_compose_ordered(l.low_of(k), h.low_of(k), other.low_of(k), control);
            lemma_compose_ordered(l.high_of(k), h.high_of(k), other.high_of(k), control);
            assert(l.low_of(k).above(k) && h.low_of(k).above(k) && other.low_of(k).above(k));
            assert(l.high_of(k).above(k) && h.high_of(k).above(k) && other.high_of(k).above(k));
            assert forall|v: nat| low.above(v) && high.above(v) && other.above(v) implies v < k by {
                lemma_cofactor_above(low, v, control);
                lemma_cofactor_above(high, v, control);
            }
        },
    }
}

/// At every assignment the composition has the value of `high` with
/// `control` at 1 where `other` holds, and the value of `low` with `control`
/// at 0 where it does not.
pub proof fn lemma_compose_select(low: Tree, high: Tree, other: Tree, control: nat, x: Set<nat>)
    requires
        low.ordered(),
        high.ordered(),
    ensures
        Tree::compose(low, high, other, control).eval(x) == if other.eval(x) {
            high.eval(x.insert(control))
        } else {
            low.eval(x.remove(control))
        },
    decreases low, high, other,
{
    let l = low.low_of(control);
    let h = high.high_of(control);
    assert(l.eval(x.remove(control)) == low.eval(x.remove(control)));
    assert(h.eval(x.insert(control)) == high.eval(x.insert(control)));
    match (l, h, other) {
        (Tree::Leaf(_), Tree::Leaf(_), Tree::Leaf(_)) => {},
        _ => {
            let k = least_var3(l, h, other);
            lemma_cofactor_ordered(low, control);
            lemma_cofactor_ordered(high, control);
            lemma_cofactor_ordered(l, k);
            lemma_cofactor_ordered(h, k);
            lemma_compose_select(l.low_of(k), h.low_of(k), other.low_of(k), control, x);
            lemma_compose_select(l.high_of(k), h.high_of(k), other.high_of(k), control, x);
            assert(l.above(control) || !(l is Branch && l->Branch_0 == control));
            if x.contains(k) {
                assert(l.high_of(k).eval(x.remove(control)) == l.eval(x.remove(control)));
                assert(h.high_of(k).eval(x.insert(control)) == h.eval(x.insert(control)));
            } else {
                assert(l.low_of(k).eval(x.remove(control)) == l.eval(x.remove(control)));
                assert(h.low_of(k).eval(x.insert(control)) == h.eval(x.insert(control)));
            }
        },
    }
}

/// Substituting `b` for the variable `control` in an ordered tree `a`: at
/// every assignment the composition of `a` with itself and `b` has the
/// value of `a` at the assignment in which `control` has the value of `b`.
pub proof fn lemma_compose_eval(a: Tree, b: Tree, control: nat, x: Set<nat>)
    requires
        a.ordered(),
    ensures
        Tree::compose(a, a, b, control).eval(x) == a.eval(
            if b.eval(x) {
                x.insert(control)
            } else {
                x.remove(control)
            },
        ),
{
    lemma_compose_select(a, a, b, control, x);
}

/// Substituting `b` for the variable `control` in an ordered tree `a`, then
/// reducing: at every assignment the result has the value of `a` at the
/// assignment in which `control` has the value of `b`.
pub proof fn lemma_bdd_compose_eval(a: Tree, b: Tree, control: nat, x: Set<nat>)
    requires
        a.ordered(),
    ensures
        Tree::compose(a, a, b, control).reduced(Rule::Bdd).eval(x) == a.eval(
            if b.eval(x) {
                x.insert(control)
            } else {
                x.remove(control)
            },
        ),
{
    lemma_compose_eval(a, b, control, x);
    lemma_reduced_eval(Tree::compose(a, a, b, control), x);
}

/// The value of an ordered tree does not depend on a variable that the
/// tree stands above.
pub proof fn lemma_eval_independent(t: Tree, v: nat, x: Set<nat>)
    requires
        t.ordered(),
        t.above(v),
    ensures
        t.eval(x.insert(v)) == t.eval(x),
        t.eval(x.remove(v)) == t.eval(x),
    decreases t,
{
    match t {
        Tree::Leaf(_) => {},
        Tree::Branch(_, low, high) => {
            lemma_eval_independent(*low, v, x);
            lemma_eval_independent(*high, v, x);
        },
    }
}

/// Where the branch `t` on `v` agrees with `b` at every assignment and `b`
/// stands above `v`, each child of `t` agrees with `b` at every assignment.
proof fn lemma_children_agree(t: Tree, b: Tree)
    requires
        t.ordered(),
        b.ordered(),
        t is Branch,
        b.above(t->Branch_0),
        forall|x: Set<nat>| t.eval(x) == b.eval(x),
    ensures
        forall|x: Set<nat>| (*t->Branch_1).eval(x) == b.eval(x),
        forall|x: Set<nat>| (*t->Branch_2).eval(x) == b.eval(x),
{
    let v = t->Branch_0;
    let low = *t->Branch_1;
    let high = *t->Branch_2;
    assert forall|x: Set<nat>| low.eval(x) == b.eval(x) by {
        lemma_eval_independent(low, v, x);
        lemma_eval_independent(b, v, x);
        assert(t.eval(x.remove(v)) == low.eval(x.remove(v)));
    }
    assert forall|x: Set<nat>| high.eval(x) == b.eval(x) by {
        lemma_eval_independent(high, v, x);
        lemma_eval_independent(b, v, x);
        assert(t.eval(x.insert(v)) == high.eval(x.insert(v)));
    }
}

/// Two ordered trees, reduced as binary decision diagrams, that have the
/// same value at every assignment are the same tree.
pub proof fn lemma_bdd_canonical(a: Tree, b: Tree)
    requires
        a.ordered(),
        b.ordered(),
        a.is_reduced(Rule::Bdd),
        b.is_reduced(Rule::Bdd),
        forall|x: Set<nat>| a.eval(x) == b.eval(x),
    ensures
        a == b,
    decreases a, b,
{
    match (a, b) {
        (Tree::Leaf(p), Tree::Leaf(q)) => {
            assert(a.eval(Set::<nat>::empty()) == b.eval(Set::<nat>::empty()));
        },
        (Tree::Branch(v, low, high), Tree::Leaf(_)) => {
            lemma_children_agree(a, b);
            lemma_bdd_canonical(*low, b);
            lemma_bdd_canonical(*high, b);
        },
        (Tree::Leaf(_), Tree::Branch(w, low, high)) => {
            lemma_children_agree(b, a);
            lemma_bdd_canonical(a, *low);
            lemma_bdd_canonical(a, *high);
        },
        (Tree::Branch(v, al, ah), Tree::Branch(w, bl, bh)) => {
            if v < w {
                lemma_children_agree(a, b);
                lemma_bdd_canonical(*al, b);
                lemma_bdd_canonical(*ah, b);
            } else if w < v {
                lemma_children_agree(b, a);
                lemma_bdd_canonical(a, *bl);
                lemma_bdd_canonical(a, *bh);
            } else {
                assert forall|x: Set<nat>| al.eval(x) == bl.eval(x) by {
                    lemma_eval_independent(*al, v, x);
                    lemma_eval_independent(*bl, v, x);
                    assert(a.eval(x.remove(v)) == al.eval(x.remove(v)));
                    assert(b.eval(x.remove(v)) == bl.eval(x.remove(v)));
                }
                assert forall|x: Set<nat>| ah.eval(x) == bh.eval(x) by {
                    lemma_eval_independent(*ah, v, x);
                    lemma_eval_independent(*bh, v, x);
                    assert(a.eval(x.insert(v)) == ah.eval(x.insert(v)));
                    assert(b.eval(x.insert(v)) == bh.eval(x.insert(v)));
                }
                lemma_bdd_canonical(*al, *bl);
                lemma_bdd_canonical(*ah, *bh);
            }
        },
    }
}

/// Two ordered trees that have the same value at every assignment have the
/// same reduced form as binary decision diagrams.
pub proof fn lemma_bdd_unique(a: Tree, b: Tree)
    requires
        a.ordered(),
        b.ordered(),
        forall|x: Set<nat>| a.eval(x) == b.eval(x),
    ensures
        a.reduced(Rule::Bdd) == b.reduced(Rule::Bdd),
{
    lemma_reduced_is_reduced(a, Rule::Bdd);
    lemma_reduced_is_reduced(b, Rule::Bdd);
    assert forall|x: Set<nat>| a.reduced(Rule::Bdd).eval(x) == b.reduced(Rule::Bdd).eval(x) by {
        lemma_reduced_eval(a, x);
        lemma_reduced_eval(b, x);
    }
    lemma_bdd_canonical(a.reduced(Rule::Bdd), b.reduced(Rule::Bdd));
}

/// Every set in the family of an ordered tree holds only variables greater
/// than any variable that the tree stands above.
pub proof fn lemma_family_support(t: Tree, v: nat, s: Set<nat>)
    requires
        t.ordered(),
        t.above(v),
        t.in_family(s),
    ensures
        forall|u: nat| s.contains(u) ==> v < u,
    decreases t,
{
    match t {
        Tree::Leaf(_) => {},
        Tree::Branch(w, low, high) => {
            if low.in_family(s) {
                lemma_family_support(*low, w, s);
            } else {
                lemma_family_support(*high, w, s.remove(w));
                assert forall|u: nat| s.contains(u) implies v < u by {
                    if u != w {
                        assert(s.remove(w).contains(u));
                    }
                }
            }
        },
    }
}

/// An ordered tree, reduced as a zero-suppressed diagram, that is not the
/// leaf false has a set in its family.
pub proof fn lemma_family_inhabited(t: Tree) -> (s: Set<nat>)
    requires
        t.ordered(),
        t.is_reduced(Rule::Zdd),
        t != Tree::Leaf(false),
    ensures
        t.in_family(s),
    decreases t,
{
    match t {
        Tree::Leaf(_) => Set::<nat>::empty(),
        Tree::Branch(v, low, high) => {
            let sh = lemma_family_inhabited(*high);
            lemma_family_support(*high, v, sh);
            assert(sh.insert(v).remove(v) =~= sh);
            sh.insert(v)
        },
    }
}

/// Two ordered trees, reduced as zero-suppressed diagrams, that denote the
/// same family of sets are the same tree.
pub proof fn lemma_zdd_canonical(a: Tree, b: Tree)
    requires
        a.ordered(),
        b.ordered(),
        a.is_reduced(Rule::Zdd),
        b.is_reduced(Rule::Zdd),
        forall|s: Set<nat>| a.in_family(s) == b.in_family(s),
    ensures
        a == b,
    decreases a, b,
{
    match (a, b) {
        (Tree::Leaf(p), Tree::Leaf(q)) => {
            assert(a.in_family(Set::<nat>::empty()) == b.in_family(Set::<nat>::empty()));
        },
        (Tree::Branch(v, low, high), Tree::Leaf(_)) => {
            let sh = lemma_family_inhabited(*high);
            lemma_family_support(*high, v, sh);
            assert(sh.insert(v).remove(v) =~= sh);
            assert(a.in_family(sh.insert(v)));
            assert(sh.insert(v).contains(v));
            assert(false);
        },
        (Tree::Leaf(_), Tree::Branch(w, low, high)) => {
            let sh = lemma_family_inhabited(*high);
            lemma_family_support(*high, w, sh);
            assert(sh.insert(w).remove(w) =~= sh);
            assert(b.in_family(sh.insert(w)));
            assert(sh.insert(w).contains(w));
            assert(false);
        },
        (Tree::Branch(v, al, ah), Tree::Branch(w, bl, bh)) => {
            if v < w {
                let sh = lemma_family_inhabited(*ah);
                lemma_family_support(*ah, v, sh);
                assert(sh.insert(v).remove(v) =~= sh);
                assert(a.in_family(sh.insert(v)));
                lemma_family_support(b, v, sh.insert(v));
                assert(false);
            } else if w < v {
                let sh = lemma_family_inhabited(*bh);
                lemma_family_support(*bh, w, sh);
                assert(sh.insert(w).remove(w) =~= sh);
                assert(b.in_family(sh.insert(w)));
                lemma_family_support(a, w, sh.insert(w));
                assert(false);
            } else {
                assert forall|s: Set<nat>| al.in_family(s) == bl.in_family(s) by {
                    if al.in_family(s) {
                        lemma_family_support(*al, v, s);
                        assert(a.in_family(s));
                    }
                    if bl.in_family(s) {
                        lemma_family_support(*bl, v, s);
                        assert(b.in_family(s));
                    }
                }
                assert forall|s: Set<nat>| ah.in_family(s) == bh.in_family(s) by {
                    if ah.in_family(s) {
                        lemma_family_support(*ah, v, s);
                        assert(s.insert(v).remove(v) =~= s);
                        assert(a.in_family(s.insert(v)));
                        if bl.in_family(s.insert(v)) {
                            lemma_family_support(*bl, v, s.insert(v));
                        }
                    }
                    if bh.in_family(s) {
                        lemma_family_support(*bh, v, s);
                        assert(s.insert(v).remove(v) =~= s);
                        assert(b.in_family(s.insert(v)));
                        if al.in_family(s.insert(v)) {
                            lemma_family_support(*al, v, s.insert(v));
                        }
                    }
                }
                lemma_zdd_canonical(*al, *bl);
                lemma_zdd_canonical(*ah, *bh);
            }
        },
    }
}

/// Two ordered trees that denote the same family of sets have the same
/// reduced form as zero-suppressed diagrams.
pub proof fn lemma_zdd_unique(a: Tree, b: Tree)
    requires
        a.ordered(),
        b.ordered(),
        forall|s: Set<nat>| a.in_family(s) == b.in_family(s),
    ensures
        a.reduced(Rule::Zdd) == b.reduced(Rule::Zdd),
{
    lemma_reduced_is_reduced(a, Rule::Zdd);
    lemma_reduced_is_reduced(b, Rule::Zdd);
    assert forall|s: Set<nat>| a.reduced(Rule::Zdd).in_family(s) == b.reduced(
        Rule::Zdd,
    ).in_family(s) by {
        lemma_reduced_family(a, s);
        lemma_reduced_family(b, s);
    }
    lemma_zdd_canonical(a.reduced(Rule::Zdd), b.reduced(Rule::Zdd));
}

/// A satisfiable tree has a positive number of paths to true, and conversely.
pub proof fn lemma_satisfiable_iff_counted(t: Tree)
    ensures
        t.satisfiable() <==> t.count_paths() > 0,
    decreases t,
{
    match t {
        Tree::Leaf(_) => {},
        Tree::Branch(_, low, high) => {
            lemma_satisfiable_iff_counted(*low);
            lemma_satisfiable_iff_counted(*high);
        },
    }
}

/// A tree that holds at some assignment has a path to true.
pub proof fn lemma_eval_satisfiable(t: Tree, x: Set<nat>)
    requires
        t.eval(x),
    ensures
        t.satisfiable(),
    decreases t,
{
    match t {
        Tree::Leaf(_) => {},
        Tree::Branch(v, low, high) => {
            if x.contains(v) {
                lemma_eval_satisfiable(*high, x);
            } else {
                lemma_eval_satisfiable(*low, x);
            }
        },
    }
}

/// An ordered tree with a path to true holds at some assignment.
pub proof fn lemma_satisfiable_eval(t: Tree) -> (x: Set<nat>)
    requires
        t.ordered(),
        t.satisfiable(),
    ensures
        t.eval(x),
    decreases t,
{
    match t {
        Tree::Leaf(_) => Set::<nat>::empty(),
        Tree::Branch(v, low, high) => {
            if high.satisfiable() {
                let xh = lemma_satisfiable_eval(*high);
                lemma_eval_independent(*high, v, xh);
                xh.insert(v)
            } else {
                let xl = lemma_satisfiable_eval(*low);
                lemma_eval_independent(*low, v, xl);
                xl.remove(v)
            }
        },
    }
}

/// A tree with a set in its family has a path to true.
pub proof fn lemma_family_satisfiable(t: Tree, s: Set<nat>)
    requires
        t.in_family(s),
    ensures
        t.satisfiable(),
    decreases t,
{
    match t {
        Tree::Leaf(_) => {},
        Tree::Branch(v, low, high) => {
            if low.in_family(s) {
                lemma_family_satisfiable(*low, s);
            } else {
                lemma_family_satisfiable(*high, s.remove(v));
            }
        },
    }
}

/// An ordered tree with a path to true has a set in its family.
pub proof fn lemma_satisfiable_family(t: Tree) -> (s: Set<nat>)
    requires
        t.ordered(),
        t.satisfiable(),
    ensures
        t.in_family(s),
    decreases t,
{
    match t {
        Tree::Leaf(_) => Set::<nat>::empty(),
        Tree::Branch(v, low, high) => {
            if high.satisfiable() {
                let sh = lemma_satisfiable_family(*high);
                lemma_family_support(*high, v, sh);
                assert(sh.insert(v).remove(v) =~= sh);
                sh.insert(v)
            } else {
                lemma_satisfiable_family(*low)
            }
        },
    }
}

/// The family of an ordered tree holds as many sets as the tree has paths to
/// true.
pub proof fn lemma_family_count(t: Tree)
    requires
        t.ordered(),
    ensures
        t.family().finite(),
        t.family().len() == t.count_paths(),
    decreases t,
{
    match t {
        Tree::Leaf(b) => {
            if b {
                assert(t.family() =~= set![Set::<nat>::empty()]);
            } else {
                assert(t.family() =~= Set::<Set<nat>>::empty());
            }
        },
        Tree::Branch(v, low, high) => {
            lemma_family_count(*low);
            lemma_family_count(*high);
            let with_v = |s: Set<nat>| s.insert(v);
            let raised = high.family().map(with_v);
            assert(injective_on(with_v, high.family())) by {
                assert forall|s1: Set<nat>, s2: Set<nat>|
                    high.family().contains(s1) && high.family().contains(s2) && #[trigger] with_v(
                        s1,
                    ) == #[trigger] with_v(s2) implies s1 == s2 by {
                    lemma_family_support(*high, v, s1);
                    lemma_family_support(*high, v, s2);
                    assert(s1.insert(v).remove(v) =~= s1);
                    assert(s2.insert(v).remove(v) =~= s2);
                }
            }
            lemma_map_size(high.family(), raised, with_v);
            assert(low.family().disjoint(raised)) by {
                assert forall|s: Set<nat>| low.family().contains(s) implies !raised.contains(
                    s,
                ) by {
                    lemma_family_support(*low, v, s);
                    if raised.contains(s) {
                        let sh = choose|sh: Set<nat>| high.family().contains(sh) && with_v(sh) == s;
                        assert(s.contains(v));
                    }
                }
            }
            assert(t.family() =~= low.family() + raised) by {
                assert forall|s: Set<nat>| t.family().contains(s) implies (low.family()
                    + raised).contains(s) by {
                    if !low.in_family(s) {
                        assert(high.family().contains(s.remove(v)));
                        assert(with_v(s.remove(v)) =~= s);
                    }
                }
                assert forall|s: Set<nat>| (low.family() + raised).contains(
                    s,
                ) implies t.family().contains(s) by {
                    if !low.family().contains(s) {
                        let sh = choose|sh: Set<nat>| high.family().contains(sh) && with_v(sh) == s;
                        lemma_family_support(*high, v, sh);
                        assert(s.remove(v) =~= sh);
                    }
                }
            }
            lemma_set_disjoint_lens(low.family(), raised);
        },
    }
}

/// Fixing a variable of an ordered tree at 0 gives an ordered tree that
/// stands above every smaller variable that the tree stands above, and
/// that holds a set exactly if the tree holds the set without the variable.
pub proof fn lemma_at_zero(t: Tree, c: nat, s: Set<nat>)
    requires
        t.ordered(),
    ensures
        t.at_zero(c).ordered(),
        forall|v: nat| t.above(v) && v < c ==> #[trigger] t.at_zero(c).above(v),
        t.at_zero(c).in_family(s) == t.in_family(s.remove(c)),
    decreases t,
{
    match t {
        Tree::Branch(v, low, high) if v < c => {
            lemma_at_zero(*low, c, s);
            lemma_at_zero(*high, c, s);
            lemma_at_zero(*high, c, s.remove(v));
            assert(s.remove(v).remove(c) =~= s.remove(c).remove(v));
        },
        Tree::Branch(v, low, high) if v == c => {
            if s.contains(c) {
                if low.in_family(s) {
                    lemma_family_support(*low, c, s);
                }
            } else {
                assert(s.remove(c) =~= s);
            }
            assert(s.remove(c).remove(c) =~= s.remove(c));
        },
        _ => {
            if s.contains(c) {
                if t.in_family(s) {
                    lemma_family_support(t, c, s);
                }
            } else {
                assert(s.remove(c) =~= s);
            }
        },
    }
}

/// Fixing a variable of an ordered tree at 1 gives an ordered tree that
/// stands above every smaller variable that the tree stands above, and
/// that holds a set exactly if the tree holds the set with the variable.
pub proof fn lemma_at_one(t: Tree, c: nat, s: Set<nat>)
    requires
        t.ordered(),
    ensures
        t.at_one(c).ordered(),
        forall|v: nat| t.above(v) && v < c ==> #[trigger] t.at_one(c).above(v),
        t.at_one(c).in_family(s) == t.in_family(s.insert(c)),
    decreases t,
{
    match t {
        Tree::Branch(v, low, high) if v < c => {
            lemma_at_one(*low, c, s);
            lemma_at_one(*high, c, s);
            lemma_at_one(*high, c, s.remove(v));
            assert(s.remove(v).insert(c) =~= s.insert(c).remove(v));
        },
        Tree::Branch(v, low, high) if v == c => {
            assert(s.insert(c).contains(c));
            if low.in_family(s.insert(c)) {
                lemma_family_support(*low, c, s.insert(c));
            }
            if s.contains(c) {
                if high.in_family(s) {
                    lemma_family_support(*high, c, s);
                }
                assert(s.insert(c).remove(c) =~= s.remove(c));
            } else {
                assert(s.remove(c) =~= s);
                assert(s.insert(c).remove(c) =~= s);
            }
        },
        _ => {
            assert(s.insert(c).contains(c));
            if t.in_family(s.insert(c)) {
                lemma_family_support(t, c, s.insert(c));
            }
        },
    }
}

} // verus!
