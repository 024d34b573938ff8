//! Pointwise combination of two diagrams by a boolean operator: a descent
//! over pairs of vertices in which each pair is worked out once.
use std::collections::HashMap;
use vstd::prelude::*;
use crate::arena::{arena_wf, lemma_tree_at_agree, tree_at};
use crate::node::{Node, Vertex};
use crate::operator::BooleanOperator;
use crate::tree::{least_var, Rule, Tree};

verus! {

broadcast use vstd::std_specs::hash::group_hash_axioms;

/// The key under which the pair of handles `(i, j)` is remembered.
pub open spec fn pair_key(i: usize, j: usize) -> u128 {
    (i * 0x1_0000_0000_0000_0000 + j) as u128
}

/// The key under which the pair of handles `(i, j)` is remembered.
pub(crate) fn make_key(i: usize, j: usize) -> (k: u128)
    ensures
        k == pair_key(i, j),
{
    (i as u128) * 0x1_0000_0000_0000_0000u128 + (j as u128)
}

/// Different pairs have different keys.
pub proof fn lemma_pair_key_injective(i: usize, j: usize, k: usize, l: usize)
    requires
        pair_key(i, j) == pair_key(k, l),
    ensures
        i == k,
        j == l,
{
}

/// Whether the arena `longer` holds the arena `shorter` as its beginning.
pub open spec fn extends(longer: Seq<Vertex>, shorter: Seq<Vertex>) -> bool {
    shorter.len() <= longer.len() && forall|k: int|
        0 <= k < shorter.len() ==> #[trigger] longer[k] == shorter[k]
}

/// An arena under construction: well formed, with the terminals false and
/// true at handles 0 and 1.
pub open spec fn raw_arena(out: Seq<Vertex>) -> bool {
    arena_wf(out) && out.len() >= 2 && out[0] == Vertex::Bool(false) && out[1] == Vertex::Bool(
        true,
    )
}

/// The trees below the handles of an arena stay as they are when the arena grows.
pub proof fn lemma_extends_tree(longer: Seq<Vertex>, shorter: Seq<Vertex>)
    requires
        extends(longer, shorter),
    ensures
        forall|k: int|
            0 <= k < shorter.len() ==> #[trigger] tree_at(longer, k) == tree_at(shorter, k),
{
    assert forall|k: int| 0 <= k < shorter.len() implies #[trigger] tree_at(longer, k) == tree_at(
        shorter,
        k,
    ) by {
        lemma_tree_at_agree(longer, shorter, k);
    }
}

/// Whether every remembered pair names the vertex of `out` above the
/// combination of the trees below the pair.
pub open spec fn memo_ok(
    rule: Rule,
    m: Map<u128, usize>,
    a: Seq<Vertex>,
    b: Seq<Vertex>,
    out: Seq<Vertex>,
    op: BooleanOperator,
    unit: bool,
) -> bool {
    forall|i: usize, j: usize|
        m.contains_key(#[trigger] pair_key(i, j)) ==> i < a.len() && j < b.len() && m[pair_key(
            i,
            j,
        )] < out.len() && tree_at(out, m[pair_key(i, j)] as int) == Tree::apply(
            rule,
            op,
            unit,
            tree_at(a, i as int),
            tree_at(b, j as int),
        )
}

/// The handles of the cofactors under `rule` for variable `k` of the vertex
/// `x` with handle `i`: its children where it decides on `k`; where it does
/// not, itself at 0 and, at 1, itself as a binary decision diagram and the
/// terminal false as a zero-suppressed one.
pub(crate) fn cofactors(
    rule: Rule,
    x: Vertex,
    i: usize,
    k: usize,
    Ghost(arena): Ghost<Seq<Vertex>>,
) -> (r: (usize, usize))
    requires
        arena_wf(arena),
        i < arena.len(),
        arena[i as int] == x,
        rule == Rule::Zdd ==> arena[0] == Vertex::Bool(false),
    ensures
        r.0 <= i,
        r.1 <= i,
        tree_at(arena, r.0 as int) == tree_at(arena, i as int).low_of(k as nat),
        tree_at(arena, r.1 as int) == tree_at(arena, i as int).high_under(rule, k as nat),
        rule == Rule::Bdd ==> tree_at(arena, r.1 as int) == tree_at(arena, i as int).high_of(
            k as nat,
        ),
        (r.0 < i && r.1 < i) || (r.0 == i && !(tree_at(arena, i as int) is Branch && tree_at(
            arena,
            i as int,
        )->Branch_0 == k)),
{
    let beside: usize = match rule {
        Rule::Bdd => i,
        Rule::Zdd => 0,
    };
    match x {
        Vertex::Bool(_) => (i, beside),
        Vertex::Var { var_index, low, high } => if var_index == k {
            (low, high)
        } else {
            (i, beside)
        },
    }
}

/// The variable of a decision vertex, `None` for a terminal.
pub(crate) fn level_of(x: Vertex) -> (r: Option<usize>)
    ensures
        r == match x {
            Vertex::Bool(_) => None::<usize>,
            Vertex::Var { var_index, .. } => Some(var_index),
        },
{
    match x {
        Vertex::Bool(_) => None,
        Vertex::Var { var_index, .. } => Some(var_index),
    }
}

/// The smaller of two variables, where `None` stands for a terminal.
pub(crate) fn least_level(x: Option<usize>, y: Option<usize>) -> (r: Option<usize>)
    ensures
        r == match (x, y) {
            (None, _) => y,
            (_, None) => x,
            (Some(p), Some(q)) => Some(if p <= q { p } else { q }),
        },
{
    match (x, y) {
        (None, _) => y,
        (_, None) => x,
        (Some(p), Some(q)) => Some(if p <= q { p } else { q }),
    }
}

/// Remembers the handle `r` for the pair `(i, j)`, which was not
/// remembered before.
fn remember(
    rule: Rule,
    op: &BooleanOperator,
    unit: bool,
    i: usize,
    j: usize,
    r: usize,
    merged: &mut HashMap<u128, usize>,
    Ghost(a): Ghost<Seq<Vertex>>,
    Ghost(b): Ghost<Seq<Vertex>>,
    Ghost(out): Ghost<Seq<Vertex>>,
)
    requires
        memo_ok(rule, old(merged)@, a, b, out, *op, unit),
        !old(merged)@.contains_key(pair_key(i, j)),
        i < a.len(),
        j < b.len(),
        r < out.len(),
        tree_at(out, r as int) == Tree::apply(
            rule,
            *op,
            unit,
            tree_at(a, i as int),
            tree_at(b, j as int),
        ),
    ensures
        memo_ok(rule, final(merged)@, a, b, out, *op, unit),
        final(merged)@ == old(merged)@.insert(pair_key(i, j), r),
{
    let hash_key = make_key(i, j);
    merged.insert(hash_key, r);
    proof {
        assert forall|i2: usize, j2: usize|
            merged@.contains_key(#[trigger] pair_key(i2, j2)) implies i2 < a.len() && j2 < b.len()
            && merged@[pair_key(i2, j2)] < out.len() && tree_at(
            out,
            merged@[pair_key(i2, j2)] as int,
        ) == Tree::apply(rule, *op, unit, tree_at(a, i2 as int), tree_at(b, j2 as int)) by {
            if pair_key(i2, j2) == hash_key {
                lemma_pair_key_injective(i2, j2, i, j);
            }
        }
    }
}

/// What is remembered stays right when the arena grows.
proof fn lemma_memo_extends(
    rule: Rule,
    m: Map<u128, usize>,
    a: Seq<Vertex>,
    b: Seq<Vertex>,
    longer: Seq<Vertex>,
    shorter: Seq<Vertex>,
    op: BooleanOperator,
    unit: bool,
)
    requires
        memo_ok(rule, m, a, b, shorter, op, unit),
        extends(longer, shorter),
    ensures
        memo_ok(rule, m, a, b, longer, op, unit),
{
    lemma_extends_tree(longer, shorter);
}

/// The handle in `out` of the combination of the vertices `i` of `a` and
/// `j` of `b`, which is added to `out` unless the pair is remembered.
/// Afterwards the pair is remembered with that handle, next to everything
/// that was remembered before; only pairs at or below this one are added.
pub(crate) fn apply_aux(
    rule: Rule,
    op: &BooleanOperator,
    unit: bool,
    absorbing: bool,
    a: &Vec<Vertex>,
    b: &Vec<Vertex>,
    i: usize,
    j: usize,
    out: &mut Vec<Vertex>,
    merged: &mut HashMap<u128, usize>,
) -> (r: usize)
    requires
        absorbing == Tree::cut_short(rule, *op, unit),
        rule == Rule::Zdd ==> a@[0] == Vertex::Bool(false) && b@[0] == Vertex::Bool(false),
        arena_wf(a@),
        arena_wf(b@),
        i < a.len(),
        j < b.len(),
        raw_arena(old(out)@),
        memo_ok(rule, old(merged)@, a@, b@, old(out)@, *op, unit),
    ensures
        raw_arena(final(out)@),
        extends(final(out)@, old(out)@),
        memo_ok(rule, final(merged)@, a@, b@, final(out)@, *op, unit),
        r < final(out).len(),
        tree_at(final(out)@, r as int) == Tree::apply(
            rule,
            *op,
            unit,
            tree_at(a@, i as int),
            tree_at(b@, j as int),
        ),
        final(merged)@.contains_key(pair_key(i, j)),
        final(merged)@[pair_key(i, j)] == r,
        forall|i2: usize, j2: usize|
            old(merged)@.contains_key(#[trigger] pair_key(i2, j2)) ==> (final(merged)@.contains_key(
                pair_key(i2, j2),
            ) && final(merged)@[pair_key(i2, j2)] == old(merged)@[pair_key(i2, j2)]),
        forall|i2: usize, j2: usize|
            final(merged)@.contains_key(#[trigger] pair_key(i2, j2)) ==> (old(merged)@.contains_key(
                pair_key(i2, j2),
            ) || i2 + j2 <= i + j),
    decreases i + j, 1nat,
{
    let hash_key = make_key(i, j);
    match merged.get(&hash_key) {
        Some(n) => {
            return *n;
        },
        None => {},
    }
    let va = a[i];
    let vb = b[j];
    let short = absorbing && (match va {
        Vertex::Bool(x) => x == unit,
        _ => false,
    } || match vb {
        Vertex::Bool(y) => y == unit,
        _ => false,
    });
    let r: usize = if short {
        if unit {
            1
        } else {
            0
        }
    } else {
        match least_level(level_of(va), level_of(vb)) {
            None => {
                let x = match va {
                    Vertex::Bool(x) => x,
                    _ => false,
                };
                let y = match vb {
                    Vertex::Bool(y) => y,
                    _ => false,
                };
                if op.call(x, y) {
                    1
                } else {
                    0
                }
            },
            Some(k) => apply_branch(rule, op, unit, absorbing, a, b, i, j, k, out, merged),
        }
    };
    remember(rule, op, unit, i, j, r, merged, Ghost(a@), Ghost(b@), Ghost(out@));
    r
}

/// The handle in `out` of a new vertex on the variable `k` above the
/// combinations of the cofactors for `k` of the vertices `i` of `a` and `j`
/// of `b`. Only pairs below this one are remembered on the way.
fn apply_branch(
    rule: Rule,
    op: &BooleanOperator,
    unit: bool,
    absorbing: bool,
    a: &Vec<Vertex>,
    b: &Vec<Vertex>,
    i: usize,
    j: usize,
    k: usize,
    out: &mut Vec<Vertex>,
    merged: &mut HashMap<u128, usize>,
) -> (r: usize)
    requires
        absorbing == Tree::cut_short(rule, *op, unit),
        rule == Rule::Zdd ==> a@[0] == Vertex::Bool(false) && b@[0] == Vertex::Bool(false),
        arena_wf(a@),
        arena_wf(b@),
        i < a.len(),
        j < b.len(),
        raw_arena(old(out)@),
        memo_ok(rule, old(merged)@, a@, b@, old(out)@, *op, unit),
        !(tree_at(a@, i as int) is Leaf && tree_at(b@, j as int) is Leaf),
        !(absorbing && (tree_at(a@, i as int) == Tree::Leaf(unit) || tree_at(b@, j as int)
            == Tree::Leaf(unit))),
        k == least_var(tree_at(a@, i as int), tree_at(b@, j as int)),
    ensures
        raw_arena(final(out)@),
        extends(final(out)@, old(out)@),
        memo_ok(rule, final(merged)@, a@, b@, final(out)@, *op, unit),
        r < final(out).len(),
        tree_at(final(out)@, r as int) == Tree::apply(
            rule,
            *op,
            unit,
            tree_at(a@, i as int),
            tree_at(b@, j as int),
        ),
        forall|i2: usize, j2: usize|
            old(merged)@.contains_key(#[trigger] pair_key(i2, j2)) ==> (final(merged)@.contains_key(
                pair_key(i2, j2),
            ) && final(merged)@[pair_key(i2, j2)] == old(merged)@[pair_key(i2, j2)]),
        forall|i2: usize, j2: usize|
            final(merged)@.contains_key(#[trigger] pair_key(i2, j2)) ==> (old(merged)@.contains_key(
                pair_key(i2, j2),
            ) || i2 + j2 < i + j),
    decreases i + j, 0nat,
{
    let ghost ta = tree_at(a@, i as int);
    let ghost tb = tree_at(b@, j as int);
    let ca = cofactors(rule, a[i], i, k, Ghost(a@));
    let cb = cofactors(rule, b[j], j, k, Ghost(b@));
    let l = apply_aux(rule, op, unit, absorbing, a, b, ca.0, cb.0, out, merged);
    let ghost out1 = out@;
    let h = apply_aux(rule, op, unit, absorbing, a, b, ca.1, cb.1, out, merged);
    let ghost out2 = out@;
    out.push(Vertex::Var { var_index: k, low: l, high: h });
    proof {
        assert(extends(out@, out2));
        lemma_extends_tree(out2, out1);
        lemma_extends_tree(out@, out2);
        lemma_memo_extends(rule, merged@, a@, b@, out@, out2, *op, unit);
        assert(arena_wf(out@)) by {
            assert forall|w: int| 0 <= w < out.len() implies match #[trigger] out[w] {
                Vertex::Bool(_) => true,
                Vertex::Var { low, high, .. } => low < w && high < w,
            } by {}
        }
        assert(tree_at(out@, l as int) == Tree::apply(
            rule,
            *op,
            unit,
            ta.low_of(k as nat),
            tb.low_of(k as nat),
        ));
        assert(tree_at(out@, h as int) == Tree::apply(
            rule,
            *op,
            unit,
            ta.high_under(rule, k as nat),
            tb.high_under(rule, k as nat),
        ));
    }
    out.len() - 1
}

/// The diagram that combines `a` and `b`, read under `rule`, pointwise by
/// `op`, not yet reduced.
///
/// `unit` is used to cut the descent short where that is sound; what the
/// result denotes does not depend on it. For zero-suppressed diagrams the
/// descent takes the terminal false from handle 0 of either arena.
pub fn apply_graphs(rule: Rule, op: BooleanOperator, unit: bool, a: &Node, b: &Node) -> (r: Node)
    requires
        rule == Rule::Zdd ==> a.arena()[0] == Vertex::Bool(false) && b.arena()[0] == Vertex::Bool(
            false,
        ),
    ensures
        r@ == Tree::apply(rule, op, unit, a@, b@),
{
    proof {
        use_type_invariant(a);
        use_type_invariant(b);
    }
    let mut out: Vec<Vertex> = Vec::new();
    out.push(Vertex::Bool(false));
    out.push(Vertex::Bool(true));
    let mut merged: HashMap<u128, usize> = HashMap::new();
    let sound = match rule {
        Rule::Bdd => true,
        Rule::Zdd => !unit,
    };
    let absorbing = sound && op.is_absorbing(unit);
    let root = apply_aux(
        rule,
        &op,
        unit,
        absorbing,
        &a.vertices,
        &b.vertices,
        a.root,
        b.root,
        &mut out,
        &mut merged,
    );
    Node { vertices: out, root }
}

} // verus!
