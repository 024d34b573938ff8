//! Arenas in canonical form, and what holds of the trees below their
//! vertices.
use vstd::prelude::*;
use vstd::relations::injective_on;
use vstd::set_lib::lemma_map_size;
use crate::arena::{arena_wf, count_reached, lemma_reach_bound, reaches, tree_at};
use crate::node::Vertex;
use crate::tree::{Rule, Tree};

verus! {

/// Whether a vertex with children of canonical ids `low` and `high` is
/// dropped under `rule`.
pub open spec fn redundant_ids(rule: Rule, low: usize, high: usize) -> bool {
    match rule {
        Rule::Bdd => low == high,
        Rule::Zdd => high == 0,
    }
}

/// Whether `x` is a terminal or decides on a variable greater than `v`.
pub open spec fn level_above(x: Vertex, v: int) -> bool {
    match x {
        Vertex::Bool(_) => true,
        Vertex::Var { var_index, .. } => v < var_index,
    }
}

/// Whether `x` decides on variable `v`.
pub open spec fn at_level(x: Vertex, v: int) -> bool {
    match x {
        Vertex::Bool(_) => false,
        Vertex::Var { var_index, .. } => v == var_index,
    }
}

/// An arena in canonical form: the two terminals come first, every other
/// vertex is a decision vertex above earlier vertices on greater variables,
/// none is redundant under `rule`, and no vertex occurs twice.
pub open spec fn canonical(vertices: Seq<Vertex>, rule: Rule) -> bool {
    &&& vertices.len() >= 2
    &&& vertices[0] == Vertex::Bool(false)
    &&& vertices[1] == Vertex::Bool(true)
    &&& forall|i: int|
        2 <= i < vertices.len() ==> match #[trigger] vertices[i] {
            Vertex::Bool(_) => false,
            Vertex::Var { var_index, low, high } => low < i && high < i && !redundant_ids(
                rule,
                low,
                high,
            ) && level_above(vertices[low as int], var_index as int) && level_above(
                vertices[high as int],
                var_index as int,
            ),
        }
    &&& forall|i: int, j: int| 0 <= i < j < vertices.len() ==> #[trigger] differ(vertices, i, j)
}

/// Whether positions `i` and `j` of the arena hold different vertices.
pub open spec fn differ(vertices: Seq<Vertex>, i: int, j: int) -> bool {
    vertices[i] != vertices[j]
}

/// In a canonical arena every vertex stands above earlier vertices.
pub proof fn lemma_canonical_wf(vertices: Seq<Vertex>, rule: Rule)
    requires
        canonical(vertices, rule),
    ensures
        arena_wf(vertices),
{
    assert forall|i: int| 0 <= i < vertices.len() implies match #[trigger] vertices[i] {
        Vertex::Bool(_) => true,
        Vertex::Var { low, high, .. } => low < i && high < i,
    } by {}
}

/// In a canonical arena two handles with the same tree below them are the
/// same handle.
pub proof fn lemma_canonical_distinct(vertices: Seq<Vertex>, rule: Rule, i: int, j: int)
    requires
        canonical(vertices, rule),
        0 <= i < vertices.len(),
        0 <= j < vertices.len(),
        tree_at(vertices, i) == tree_at(vertices, j),
    ensures
        i == j,
    decreases i,
{
    if i >= 2 && j >= 2 {
        match (vertices[i], vertices[j]) {
            (
                Vertex::Var { var_index: vi, low: li, high: hi },
                Vertex::Var { var_index: vj, low: lj, high: hj },
            ) => {
                lemma_canonical_distinct(vertices, rule, li as int, lj as int);
                lemma_canonical_distinct(vertices, rule, hi as int, hj as int);
                if i < j {
                    assert(differ(vertices, i, j));
                } else if j < i {
                    assert(differ(vertices, j, i));
                }
            },
            _ => {},
        }
    } else if i >= 2 {
    } else if j >= 2 {
    }
}

/// A canonical arena stays canonical when a decision vertex on a smaller
/// variable is added whose children are not those of a vertex added before.
pub proof fn lemma_push_canonical(
    before: Seq<Vertex>,
    n0: int,
    v: usize,
    key: (usize, usize),
    rule: Rule,
)
    requires
        canonical(before, rule),
        2 <= n0 <= before.len(),
        key.0 < n0,
        key.1 < n0,
        !redundant_ids(rule, key.0, key.1),
        forall|i: int| 2 <= i < n0 ==> level_above(#[trigger] before[i], v as int),
        forall|i: int|
            n0 <= i < before.len() ==> match #[trigger] before[i] {
                Vertex::Bool(_) => false,
                Vertex::Var { var_index, low, high } => var_index == v && (low, high) != key,
            },
    ensures
        canonical(before.push(Vertex::Var { var_index: v, low: key.0, high: key.1 }), rule),
{
    let after = before.push(Vertex::Var { var_index: v, low: key.0, high: key.1 });
    let fresh = before.len() as int;
    assert forall|i: int| 2 <= i < after.len() implies match #[trigger] after[i] {
        Vertex::Bool(_) => false,
        Vertex::Var { var_index, low, high } => low < i && high < i && !redundant_ids(
            rule,
            low,
            high,
        ) && level_above(after[low as int], var_index as int) && level_above(
            after[high as int],
            var_index as int,
        ),
    } by {
        if i < fresh {
            assert(after[i] == before[i]);
        }
    }
    assert forall|i: int, j: int| 0 <= i < j < after.len() implies #[trigger] differ(
        after,
        i,
        j,
    ) by {
        if j < fresh {
            assert(differ(before, i, j));
        } else {
            assert(after[i] == before[i]);
        }
    }
}

/// The tree below any handle of a canonical arena is ordered and reduced.
pub proof fn lemma_canonical_tree(vertices: Seq<Vertex>, rule: Rule, i: int)
    requires
        canonical(vertices, rule),
        0 <= i < vertices.len(),
    ensures
        tree_at(vertices, i).ordered(),
        tree_at(vertices, i).is_reduced(rule),
    decreases i,
{
    if i >= 2 {
        match vertices[i] {
            Vertex::Bool(_) => {},
            Vertex::Var { var_index, low, high } => {
                lemma_canonical_tree(vertices, rule, low as int);
                lemma_canonical_tree(vertices, rule, high as int);
                lemma_redundant_ids(vertices, rule, low, high);
            },
        }
    }
}

/// On the handles of a canonical arena the rule can be read off the ids.
pub proof fn lemma_redundant_ids(vertices: Seq<Vertex>, rule: Rule, low: usize, high: usize)
    requires
        canonical(vertices, rule),
        low < vertices.len(),
        high < vertices.len(),
    ensures
        Tree::redundant(rule, tree_at(vertices, low as int), tree_at(vertices, high as int))
            == redundant_ids(rule, low, high),
{
    match rule {
        Rule::Bdd => {
            if tree_at(vertices, low as int) == tree_at(vertices, high as int) {
                lemma_canonical_distinct(vertices, rule, low as int, high as int);
            }
        },
        Rule::Zdd => {
            if tree_at(vertices, high as int) == Tree::Leaf(false) {
                lemma_canonical_distinct(vertices, rule, high as int, 0);
            }
        },
    }
}

/// The handles below `n` that `root` reaches.
pub open spec fn reached_below(vertices: Seq<Vertex>, root: int, n: int) -> Set<int> {
    Set::new(|k: int| 0 <= k < n && reaches(vertices, root, k))
}

/// The handles that `root` reaches below `n` are as many as are counted.
pub proof fn lemma_count_is_len(vertices: Seq<Vertex>, root: int, n: int)
    requires
        0 <= n,
    ensures
        reached_below(vertices, root, n).finite(),
        reached_below(vertices, root, n).len() == count_reached(vertices, root, n),
    decreases n,
{
    if n == 0 {
        assert(reached_below(vertices, root, n) =~= Set::<int>::empty());
    } else {
        lemma_count_is_len(vertices, root, n - 1);
        let before = reached_below(vertices, root, n - 1);
        if reaches(vertices, root, n - 1) {
            assert(reached_below(vertices, root, n) =~= before.insert(n - 1));
        } else {
            assert(reached_below(vertices, root, n) =~= before);
        }
    }
}

/// The tree below a reached vertex is a subtree of the tree below the root.
pub proof fn lemma_reached_is_subtree(vertices: Seq<Vertex>, from: int, to: int)
    requires
        reaches(vertices, from, to),
    ensures
        tree_at(vertices, from).subtrees().contains(tree_at(vertices, to)),
    decreases from,
{
    if from != to {
        match vertices[from] {
            Vertex::Bool(_) => {},
            Vertex::Var { low, high, .. } => {
                if reaches(vertices, low as int, to) {
                    lemma_reached_is_subtree(vertices, low as int, to);
                } else {
                    lemma_reached_is_subtree(vertices, high as int, to);
                }
            },
        }
    }
}

/// Every subtree of the tree below a vertex is the tree below a vertex
/// that it reaches.
pub proof fn lemma_subtree_is_reached(vertices: Seq<Vertex>, from: int, t: Tree) -> (k: int)
    requires
        0 <= from < vertices.len(),
        tree_at(vertices, from).subtrees().contains(t),
    ensures
        reaches(vertices, from, k),
        tree_at(vertices, k) == t,
    decreases from,
{
    if tree_at(vertices, from) == t {
        from
    } else {
        match vertices[from] {
            Vertex::Bool(_) => from,
            Vertex::Var { low, high, .. } => {
                if tree_at(vertices, low as int).subtrees().contains(t) {
                    lemma_subtree_is_reached(vertices, low as int, t)
                } else {
                    lemma_subtree_is_reached(vertices, high as int, t)
                }
            },
        }
    }
}

/// In a canonical arena a vertex reaches as many vertices as the tree below
/// it has distinct subtrees.
pub proof fn lemma_canonical_count(vertices: Seq<Vertex>, rule: Rule, root: int)
    requires
        canonical(vertices, rule),
        0 <= root < vertices.len(),
    ensures
        tree_at(vertices, root).subtrees().finite(),
        count_reached(vertices, root, vertices.len() as int) == tree_at(
            vertices,
            root,
        ).subtrees().len(),
{
    let n = vertices.len() as int;
    let reached = reached_below(vertices, root, n);
    let below = |k: int| tree_at(vertices, k);
    let trees = tree_at(vertices, root).subtrees();
    lemma_count_is_len(vertices, root, n);
    assert(injective_on(below, reached)) by {
        assert forall|i: int, j: int|
            reached.contains(i) && reached.contains(j) && #[trigger] below(i) == #[trigger] below(
                j,
            ) implies i == j by {
            lemma_canonical_distinct(vertices, rule, i, j);
        }
    }
    assert(reached.map(below) =~= trees) by {
        assert forall|t: Tree| reached.map(below).contains(t) implies trees.contains(t) by {
            let k = choose|k: int| reached.contains(k) && below(k) == t;
            lemma_reached_is_subtree(vertices, root, k);
        }
        assert forall|t: Tree| trees.contains(t) implies reached.map(below).contains(t) by {
            let k = lemma_subtree_is_reached(vertices, root, t);
            lemma_reach_bound(vertices, root, k);
            assert(reached.contains(k) && below(k) == t);
        }
    }
    lemma_map_size(reached, trees, below);
}

} // verus!
