//! Arenas of vertices: the tree below a vertex, the vertices that a vertex
//! reaches, and how both behave when an arena is copied, moved or extended.
use vstd::prelude::*;
use crate::node::Vertex;
use crate::tree::Tree;

verus! {

/// The tree below the vertex at position `i` of the arena `vertices`.
pub open spec fn tree_at(vertices: Seq<Vertex>, i: int) -> Tree
    decreases i,
{
    if 0 <= i < vertices.len() {
        match vertices[i] {
            Vertex::Bool(b) => Tree::Leaf(b),
            Vertex::Var { var_index, low, high } => if low < i && high < i {
                Tree::Branch(
                    var_index as nat,
                    Box::new(tree_at(vertices, low as int)),
                    Box::new(tree_at(vertices, high as int)),
                )
            } else {
                Tree::Leaf(false)
            },
        }
    } else {
        Tree::Leaf(false)
    }
}

/// Whether every decision vertex of the arena points to earlier positions only.
pub open spec fn arena_wf(vertices: Seq<Vertex>) -> bool {
    forall|i: int|
        0 <= i < vertices.len() ==> match #[trigger] vertices[i] {
            Vertex::Bool(_) => true,
            Vertex::Var { low, high, .. } => low < i && high < i,
        }
}

/// Whether the vertex at `p` is a decision vertex with `k` as a child.
pub open spec fn is_child(vertices: Seq<Vertex>, p: int, k: int) -> bool {
    0 <= p < vertices.len() && match vertices[p] {
        Vertex::Bool(_) => false,
        Vertex::Var { low, high, .. } => low < p && high < p && (low == k || high == k),
    }
}

/// Whether a path of child edges leads from the vertex at `from` to the one at `to`.
pub open spec fn reaches(vertices: Seq<Vertex>, from: int, to: int) -> bool
    decreases from,
{
    0 <= from < vertices.len() && (from == to || match vertices[from] {
        Vertex::Bool(_) => false,
        Vertex::Var { low, high, .. } => low < from && high < from && (reaches(
            vertices,
            low as int,
            to,
        ) || reaches(vertices, high as int, to)),
    })
}

/// The number of positions below `n` that `root` reaches.
pub open spec fn count_reached(vertices: Seq<Vertex>, root: int, n: int) -> nat
    decreases n,
{
    if n <= 0 {
        0
    } else {
        count_reached(vertices, root, n - 1) + if reaches(vertices, root, n - 1) {
            1nat
        } else {
            0nat
        }
    }
}

/// Arenas that agree up to `i` hold the same tree below `i`.
pub proof fn lemma_tree_at_agree(a: Seq<Vertex>, b: Seq<Vertex>, i: int)
    requires
        0 <= i < a.len(),
        i < b.len(),
        forall|k: int| 0 <= k <= i ==> a[k] == b[k],
    ensures
        tree_at(a, i) == tree_at(b, i),
    decreases i,
{
    match a[i] {
        Vertex::Bool(_) => {},
        Vertex::Var { low, high, .. } => {
            if low < i && high < i {
                lemma_tree_at_agree(a, b, low as int);
                lemma_tree_at_agree(a, b, high as int);
            }
        },
    }
}

/// A vertex reaches only itself and earlier positions of the arena.
pub proof fn lemma_reach_bound(vertices: Seq<Vertex>, from: int, to: int)
    requires
        reaches(vertices, from, to),
    ensures
        0 <= to <= from < vertices.len(),
    decreases from,
{
    if from != to {
        match vertices[from] {
            Vertex::Bool(_) => {},
            Vertex::Var { low, high, .. } => {
                if reaches(vertices, low as int, to) {
                    lemma_reach_bound(vertices, low as int, to);
                } else {
                    lemma_reach_bound(vertices, high as int, to);
                }
            },
        }
    }
}

/// A path extends along a child edge.
pub proof fn lemma_reach_step(vertices: Seq<Vertex>, from: int, p: int, k: int)
    requires
        reaches(vertices, from, p),
        is_child(vertices, p, k),
        0 <= k,
    ensures
        reaches(vertices, from, k),
    decreases from,
{
    if from == p {
        match vertices[p] {
            Vertex::Bool(_) => {},
            Vertex::Var { low, high, .. } => {
                assert(reaches(vertices, k, k));
            },
        }
    } else {
        match vertices[from] {
            Vertex::Bool(_) => {},
            Vertex::Var { low, high, .. } => {
                if reaches(vertices, low as int, p) {
                    lemma_reach_step(vertices, low as int, p, k);
                } else {
                    lemma_reach_step(vertices, high as int, p, k);
                }
            },
        }
    }
}

/// A path to another vertex ends with a child edge from a vertex on the path.
pub proof fn lemma_reach_parent(vertices: Seq<Vertex>, from: int, to: int) -> (p: int)
    requires
        reaches(vertices, from, to),
        from != to,
    ensures
        to < p <= from,
        reaches(vertices, from, p),
        is_child(vertices, p, to),
    decreases from,
{
    match vertices[from] {
        Vertex::Bool(_) => 0,
        Vertex::Var { low, high, .. } => {
            if low == to || high == to {
                from
            } else if reaches(vertices, low as int, to) {
                lemma_reach_parent(vertices, low as int, to)
            } else {
                lemma_reach_parent(vertices, high as int, to)
            }
        },
    }
}

/// The tree below a reached vertex has no more paths to true than the tree
/// below the vertex that reaches it.
pub proof fn lemma_reach_tree(vertices: Seq<Vertex>, from: int, to: int)
    requires
        reaches(vertices, from, to),
    ensures
        tree_at(vertices, from).ordered() ==> tree_at(vertices, to).ordered(),
        tree_at(vertices, to).count_paths() <= tree_at(vertices, from).count_paths(),
    decreases from,
{
    if from != to {
        match vertices[from] {
            Vertex::Bool(_) => {},
            Vertex::Var { low, high, .. } => {
                if reaches(vertices, low as int, to) {
                    lemma_reach_tree(vertices, low as int, to);
                } else {
                    lemma_reach_tree(vertices, high as int, to);
                }
            },
        }
    }
}

/// Arenas that agree up to `from` agree on what `from` reaches.
pub proof fn lemma_reach_agree(a: Seq<Vertex>, b: Seq<Vertex>, from: int, to: int)
    requires
        0 <= from < a.len(),
        from < b.len(),
        forall|k: int| 0 <= k <= from ==> a[k] == b[k],
    ensures
        reaches(a, from, to) == reaches(b, from, to),
    decreases from,
{
    match a[from] {
        Vertex::Bool(_) => {},
        Vertex::Var { low, high, .. } => {
            if low < from && high < from {
                lemma_reach_agree(a, b, low as int, to);
                lemma_reach_agree(a, b, high as int, to);
            }
        },
    }
}

/// Two roots that reach the same positions below `n` reach as many.
pub proof fn lemma_count_agree(a: Seq<Vertex>, ra: int, b: Seq<Vertex>, rb: int, n: int)
    requires
        forall|k: int| 0 <= k < n ==> reaches(a, ra, k) == reaches(b, rb, k),
    ensures
        count_reached(a, ra, n) == count_reached(b, rb, n),
    decreases n,
{
    if n > 0 {
        lemma_count_agree(a, ra, b, rb, n - 1);
    }
}

/// Whether the vertices below `root` lie in the arena as a tree written
/// down children first: they are the vertices from `start` to `root`, the
/// high child stands right before its parent, and everything below the low
/// child stands before everything below the high child.
pub open spec fn laid_out(vertices: Seq<Vertex>, root: int, start: int) -> bool
    decreases root,
{
    0 <= start <= root < vertices.len() && match vertices[root] {
        Vertex::Bool(_) => start == root,
        Vertex::Var { low, high, .. } => high + 1 == root && start <= low < high && laid_out(
            vertices,
            high as int,
            low + 1,
        ) && laid_out(vertices, low as int, start),
    }
}

/// Arenas that agree up to `root` agree on how the tree below `root` is
/// laid out.
pub proof fn lemma_laid_out_agree(a: Seq<Vertex>, b: Seq<Vertex>, root: int, start: int)
    requires
        0 <= root < a.len(),
        root < b.len(),
        forall|k: int| 0 <= k <= root ==> a[k] == b[k],
    ensures
        laid_out(a, root, start) == laid_out(b, root, start),
    decreases root,
{
    match a[root] {
        Vertex::Bool(_) => {},
        Vertex::Var { low, high, .. } => {
            if low < root && high < root {
                lemma_laid_out_agree(a, b, high as int, low + 1);
                lemma_laid_out_agree(a, b, low as int, start);
            }
        },
    }
}

/// The root of a tree laid out from `start` reaches the vertices from
/// `start` to itself and no others.
pub proof fn lemma_laid_out_reaches(vertices: Seq<Vertex>, root: int, start: int, k: int)
    requires
        laid_out(vertices, root, start),
    ensures
        reaches(vertices, root, k) <==> start <= k <= root,
    decreases root,
{
    match vertices[root] {
        Vertex::Bool(_) => {},
        Vertex::Var { low, high, .. } => {
            lemma_laid_out_reaches(vertices, high as int, low + 1, k);
            lemma_laid_out_reaches(vertices, low as int, start, k);
        },
    }
}

/// Where `root` reaches, below `n`, exactly the positions from `start` on,
/// it reaches as many as there are.
pub proof fn lemma_count_from(vertices: Seq<Vertex>, root: int, start: int, n: int)
    requires
        0 <= start,
        forall|k: int| 0 <= k < n ==> (reaches(vertices, root, k) <==> start <= k),
    ensures
        count_reached(vertices, root, n) == if n > start {
            n - start
        } else {
            0
        },
    decreases n,
{
    if n > 0 {
        lemma_count_from(vertices, root, start, n - 1);
    }
}

/// The root of a tree laid out from `start` reaches as many vertices as lie
/// from `start` to itself.
pub proof fn lemma_laid_out_count(vertices: Seq<Vertex>, root: int, start: int)
    requires
        laid_out(vertices, root, start),
    ensures
        count_reached(vertices, root, root + 1) == root - start + 1,
{
    assert forall|k: int| 0 <= k < root + 1 implies (reaches(vertices, root, k) <==> start
        <= k) by {
        lemma_laid_out_reaches(vertices, root, start, k);
    }
    lemma_count_from(vertices, root, start, root + 1);
}

} // verus!
