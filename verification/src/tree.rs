//! The mathematical model of a diagram: the decision tree obtained by
//! unfolding the shared graph below a vertex.
use vstd::prelude::*;
use crate::operator::BooleanOperator;

verus! {

/// A decision tree over boolean variables numbered by natural numbers.
pub enum Tree {
    /// A boolean constant.
    Leaf(bool),
    /// `Branch(v, low, high)` tests variable `v` and continues in `low`
    /// when it is 0 and in `high` when it is 1.
    Branch(nat, Box<Tree>, Box<Tree>),
}

/// Which vertices a reduced diagram does without.
#[derive(Clone, Copy, Debug, PartialEq, Eq, Structural)]
pub enum Rule {
    /// A vertex whose two children coincide is dropped (binary decision diagram).
    Bdd,
    /// A vertex whose high child is the constant false is dropped
    /// (zero-suppressed decision diagram).
    Zdd,
}

impl Tree {
    /// The value of the function at the assignment that sets exactly the
    /// variables in `x` to 1.
    pub open spec fn eval(self, x: Set<nat>) -> bool
        decreases self,
    {
        match self {
            Tree::Leaf(b) => b,
            Tree::Branch(v, low, high) => if x.contains(v) {
                high.eval(x)
            } else {
                low.eval(x)
            },
        }
    }

    /// Whether the set `s` belongs to the family of sets that the tree
    /// denotes when read as a zero-suppressed diagram: `Leaf(false)` is the
    /// empty family, `Leaf(true)` holds the empty set alone, and a branch on
    /// `v` holds the sets of `low` and the sets of `high` with `v` added.
    pub open spec fn in_family(self, s: Set<nat>) -> bool
        decreases self,
    {
        match self {
            Tree::Leaf(b) => b && s == Set::<nat>::empty(),
            Tree::Branch(v, low, high) => low.in_family(s) || (s.contains(v) && high.in_family(
                s.remove(v),
            )),
        }
    }

    /// The family of sets that the tree denotes when read as a
    /// zero-suppressed diagram.
    pub open spec fn family(self) -> Set<Set<nat>> {
        Set::new(|s: Set<nat>| self.in_family(s))
    }

    /// The number of paths from the root to a true leaf.
    pub open spec fn count_paths(self) -> nat
        decreases self,
    {
        match self {
            Tree::Leaf(b) => if b { 1 } else { 0 },
            Tree::Branch(_, low, high) => low.count_paths() + high.count_paths(),
        }
    }

    /// Whether some path from the root ends in a true leaf.
    pub open spec fn satisfiable(self) -> bool
        decreases self,
    {
        match self {
            Tree::Leaf(b) => b,
            Tree::Branch(_, low, high) => low.satisfiable() || high.satisfiable(),
        }
    }

    /// Whether the tree is a leaf or branches on a variable greater than `v`.
    pub open spec fn above(self, v: nat) -> bool {
        match self {
            Tree::Leaf(_) => true,
            Tree::Branch(w, _, _) => v < w,
        }
    }

    /// Whether the variables strictly increase along every path from the root.
    pub open spec fn ordered(self) -> bool
        decreases self,
    {
        match self {
            Tree::Leaf(_) => true,
            Tree::Branch(v, low, high) => low.above(v) && high.above(v) && low.ordered()
                && high.ordered(),
        }
    }

    /// Whether a vertex with the (already reduced) children `low` and `high`
    /// is dropped under `rule`.
    pub open spec fn redundant(rule: Rule, low: Tree, high: Tree) -> bool {
        match rule {
            Rule::Bdd => low == high,
            Rule::Zdd => high == Tree::Leaf(false),
        }
    }

    /// The reduced form of the tree under `rule`: children first, then the
    /// vertex itself is dropped in favour of its low child where the rule
    /// says so.
    pub open spec fn reduced(self, rule: Rule) -> Tree
        decreases self,
    {
        match self {
            Tree::Leaf(b) => Tree::Leaf(b),
            Tree::Branch(v, low, high) => {
                let l = low.reduced(rule);
                let h = high.reduced(rule);
                if Tree::redundant(rule, l, h) {
                    l
                } else {
                    Tree::Branch(v, Box::new(l), Box::new(h))
                }
            },
        }
    }

    /// The cofactor for `k` at 0: the low child where the tree branches on
    /// `k`, the tree itself where it does not.
    pub open spec fn low_of(self, k: nat) -> Tree {
        match self {
            Tree::Leaf(_) => self,
            Tree::Branch(v, low, _) => if v == k {
                *low
            } else {
                self
            },
        }
    }

    /// The cofactor for `k` at 1: the high child where the tree branches on
    /// `k`, the tree itself where it does not.
    pub open spec fn high_of(self, k: nat) -> Tree {
        match self {
            Tree::Leaf(_) => self,
            Tree::Branch(v, _, high) => if v == k {
                *high
            } else {
                self
            },
        }
    }

    /// The cofactor for `k` at 1 under `rule`: the high child where the tree
    /// branches on `k`. A tree that does not branch on `k` does not depend
    /// on it when read as a binary decision diagram, and is its own
    /// cofactor; read as a zero-suppressed diagram it holds no set with `k`,
    /// and its cofactor is the empty family.
    pub open spec fn high_under(self, rule: Rule, k: nat) -> Tree {
        if self is Branch && self->Branch_0 == k {
            *self->Branch_2
        } else {
            match rule {
                Rule::Bdd => self,
                Rule::Zdd => Tree::Leaf(false),
            }
        }
    }

    /// The number of branches on the longest path from the root.
    pub open spec fn height(self) -> nat
        decreases self,
    {
        match self {
            Tree::Leaf(_) => 0,
            Tree::Branch(_, low, high) => 1 + if low.height() >= high.height() {
                low.height()
            } else {
                high.height()
            },
        }
    }

    /// Whether the tree holds at `x` when read under `rule`: its value at
    /// the assignment `x` as a binary decision diagram, whether the set `x`
    /// is in its family as a zero-suppressed one.
    pub open spec fn holds(self, rule: Rule, x: Set<nat>) -> bool {
        match rule {
            Rule::Bdd => self.eval(x),
            Rule::Zdd => self.in_family(x),
        }
    }

    /// Whether a combination by `op` may be cut short at the leaf `unit`:
    /// `unit` absorbs under `op`, and the leaf denotes the constant `unit`,
    /// which the leaf true of a zero-suppressed diagram does not.
    pub open spec fn cut_short(rule: Rule, op: BooleanOperator, unit: bool) -> bool {
        op.absorbs(unit) && (rule == Rule::Bdd || !unit)
    }

    /// The unified key: 0 and 1 for the leaves, the variable plus 2 for a branch.
    pub open spec fn key(self) -> nat {
        match self {
            Tree::Leaf(b) => if b { 1 } else { 0 },
            Tree::Branch(v, _, _) => v + 2,
        }
    }

    /// The tree that combines `a` and `b`, read under `rule`, pointwise by
    /// `op`.
    ///
    /// Where the combination may be cut short at `unit` and one of the two
    /// is the leaf `unit`, the result is that leaf. Two leaves combine to
    /// the leaf of their values. Otherwise the result branches on the least
    /// variable at the root of either, above the combinations of the
    /// cofactors under `rule`.
    pub open spec fn apply(rule: Rule, op: BooleanOperator, unit: bool, a: Tree, b: Tree) -> Tree
        decreases a.height() + b.height(),
    {
        if Tree::cut_short(rule, op, unit) && (a == Tree::Leaf(unit) || b == Tree::Leaf(unit)) {
            Tree::Leaf(unit)
        } else {
            match (a, b) {
                (Tree::Leaf(x), Tree::Leaf(y)) => Tree::Leaf(op.eval(x, y)),
                _ => {
                    let k = least_var(a, b);
                    Tree::Branch(
                        k,
                        Box::new(Tree::apply(rule, op, unit, a.low_of(k), b.low_of(k))),
                        Box::new(
                            Tree::apply(
                                rule,
                                op,
                                unit,
                                a.high_under(rule, k),
                                b.high_under(rule, k),
                            ),
                        ),
                    )
                },
            }
        }
    }

    /// The tree that, read as a family of sets, holds a set exactly if this
    /// tree holds the set without `c`: whether `c` is in the set is left
    /// open, and `c` counts as 0.
    pub open spec fn at_zero(self, c: nat) -> Tree
        decreases self,
    {
        match self {
            Tree::Leaf(_) => Tree::Branch(c, Box::new(self), Box::new(self)),
            Tree::Branch(v, low, high) => if v < c {
                Tree::Branch(v, Box::new(low.at_zero(c)), Box::new(high.at_zero(c)))
            } else if v == c {
                Tree::Branch(c, low, low)
            } else {
                Tree::Branch(c, Box::new(self), Box::new(self))
            },
        }
    }

    /// The tree that, read as a family of sets, holds a set exactly if this
    /// tree holds the set with `c` added: whether `c` is in the set is left
    /// open, and `c` counts as 1.
    pub open spec fn at_one(self, c: nat) -> Tree
        decreases self,
    {
        match self {
            Tree::Leaf(_) => Tree::Leaf(false),
            Tree::Branch(v, low, high) => if v < c {
                Tree::Branch(v, Box::new(low.at_one(c)), Box::new(high.at_one(c)))
            } else if v == c {
                Tree::Branch(c, high, high)
            } else {
                Tree::Leaf(false)
            },
        }
    }

    /// The tree for "`high` with `control` at 1 where `other` holds, `low`
    /// with `control` at 0 where it does not".
    ///
    /// A branch on `control` at the root of `low` or of `high` is replaced by
    /// its low or high child. Three leaves combine to the leaf that selects
    /// between the first two by the third. Otherwise the result branches on
    /// the least variable at the root of any of the three, above the
    /// compositions of the cofactors.
    pub open spec fn compose(low: Tree, high: Tree, other: Tree, control: nat) -> Tree
        decreases low, high, other,
    {
        let l = low.low_of(control);
        let h = high.high_of(control);
        match (l, h, other) {
            (Tree::Leaf(x), Tree::Leaf(y), Tree::Leaf(z)) => Tree::Leaf((!z && x) || (z && y)),
            _ => {
                let k = least_var3(l, h, other);
                Tree::Branch(
                    k,
                    Box::new(Tree::compose(l.low_of(k), h.low_of(k), other.low_of(k), control)),
                    Box::new(Tree::compose(l.high_of(k), h.high_of(k), other.high_of(k), control)),
                )
            },
        }
    }

    /// The tree itself and every tree below one of its branches.
    pub open spec fn subtrees(self) -> Set<Tree>
        decreases self,
    {
        match self {
            Tree::Leaf(_) => set![self],
            Tree::Branch(_, low, high) => low.subtrees().union(high.subtrees()).insert(self),
        }
    }

    /// Whether no vertex of the tree would be dropped under `rule`.
    pub open spec fn is_reduced(self, rule: Rule) -> bool
        decreases self,
    {
        match self {
            Tree::Leaf(_) => true,
            Tree::Branch(_, low, high) => low.is_reduced(rule) && high.is_reduced(rule)
                && !Tree::redundant(rule, *low, *high),
        }
    }
}

/// The smaller of two unified keys that is the key of a branch, as a variable.
pub open spec fn least_key(x: nat, y: nat) -> nat {
    if x < 2 {
        y
    } else if y < 2 {
        x
    } else if x <= y {
        x
    } else {
        y
    }
}

/// The least variable at the root of `a` or `b`; 0 if both are leaves.
pub open spec fn least_var(a: Tree, b: Tree) -> nat {
    let k = least_key(a.key(), b.key());
    if k < 2 {
        0
    } else {
        (k - 2) as nat
    }
}

/// The least variable at the root of `a`, `b` or `c`; 0 if all are leaves.
pub open spec fn least_var3(a: Tree, b: Tree, c: Tree) -> nat {
    let k = least_key(least_key(a.key(), b.key()), c.key());
    if k < 2 {
        0
    } else {
        (k - 2) as nat
    }
}

} // verus!
