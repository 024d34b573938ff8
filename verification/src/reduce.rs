//! Canonical form: bottom-up, level by level, merging vertices with equal
//! children and dropping the vertices that the rule makes redundant.
use vstd::prelude::*;
use itertools::Itertools;
use crate::arena::{
    arena_wf, is_child, lemma_reach_step, lemma_reach_tree, lemma_tree_at_agree, reaches, tree_at,
};
use crate::canonical::{
    at_level, canonical, lemma_canonical_count, lemma_canonical_wf, lemma_push_canonical,
    lemma_redundant_ids, level_above, redundant_ids,
};
use crate::node::{Node, Vertex};
use crate::tree::{Rule, Tree};

verus! {

/// A staged vertex: the canonical ids of its children, then its own handle.
pub type Staged = ((usize, usize), usize);

/// The lexicographic order on pairs of ids.
pub open spec fn key_le(a: (usize, usize), b: (usize, usize)) -> bool {
    a.0 < b.0 || (a.0 == b.0 && a.1 <= b.1)
}

/// Two sequences with the same elements, each as often, hold the same values.
pub proof fn lemma_same_elements<T>(a: Seq<T>, b: Seq<T>)
    requires
        a.to_multiset() == b.to_multiset(),
    ensures
        a.len() == b.len(),
        forall|x: T| a.contains(x) <==> b.contains(x),
{
    a.to_multiset_ensures();
    b.to_multiset_ensures();
    assert forall|x: T| a.contains(x) <==> b.contains(x) by {
        assert(a.contains(x) <==> a.to_multiset().count(x) > 0);
        assert(b.contains(x) <==> b.to_multiset().count(x) > 0);
    }
}

/// Sorts the pairs of a variable and a handle with `Itertools::sorted`,
/// which collects its input and sorts it by `Ord`: the result holds the
/// same pairs, each as often as before, in ascending lexicographic order.
#[verifier::external_body]
fn sorted_levels(entries: Vec<(usize, usize)>) -> (r: Vec<(usize, usize)>)
    ensures
        r@.to_multiset() == entries@.to_multiset(),
        forall|i: int, j: int|
            0 <= i < j < r.len() ==> key_le(#[trigger] r[i], #[trigger] r[j]),
{
    entries.into_iter().sorted().collect()
}

/// Sorts the staged vertices by their keys with `sort_unstable_by_key` of
/// slices: the result holds the same entries, each as often as before, with
/// keys in ascending lexicographic order; entries with equal keys come in
/// any order.
#[verifier::external_body]
fn sort_by_key(q: &mut Vec<Staged>)
    ensures
        final(q)@.to_multiset() == old(q)@.to_multiset(),
        forall|i: int, j: int|
            0 <= i < j < final(q).len() ==> key_le(
                (#[trigger] final(q)[i]).0,
                (#[trigger] final(q)[j]).0,
            ),
{
    q.sort_unstable_by_key(|e| e.0);
}

/// The two-way mapping of one reduction: `index` takes each handle of the
/// input to its canonical id, once it has one, and `node` takes each
/// canonical id to its vertex. Ids 0 and 1 are the terminals false and true.
pub struct Indexer {
    pub index: Vec<Option<usize>>,
    pub node: Vec<Vertex>,
}

/// Whether the handle `u` of the arena `source` has its canonical id: the id
/// names a vertex of `node` above the reduced form of the tree below `u`.
pub open spec fn settled(
    source: Seq<Vertex>,
    u: int,
    index: Seq<Option<usize>>,
    node: Seq<Vertex>,
    rule: Rule,
) -> bool {
    index[u] matches Some(id) && id < node.len() && tree_at(node, id as int) == tree_at(
        source,
        u,
    ).reduced(rule)
}

/// Whether the entry `e` stages a decision vertex of `source` on variable `v`
/// whose children have the canonical ids in its key.
pub open spec fn valid_entry(
    source: Seq<Vertex>,
    e: Staged,
    v: usize,
    node: Seq<Vertex>,
    rule: Rule,
) -> bool {
    &&& e.1 < source.len()
    &&& e.0.0 < node.len()
    &&& e.0.1 < node.len()
    &&& !redundant_ids(rule, e.0.0, e.0.1)
    &&& match source[e.1 as int] {
        Vertex::Bool(_) => false,
        Vertex::Var { var_index, low, high } => var_index == v && low < e.1 && high < e.1
            && tree_at(node, e.0.0 as int) == tree_at(source, low as int).reduced(rule) && tree_at(
            node,
            e.0.1 as int,
        ) == tree_at(source, high as int).reduced(rule),
    }
}

/// Whether some entry of `q` stages the handle `u`.
pub open spec fn has_handle(q: Seq<Staged>, u: int) -> bool {
    exists|s: int| 0 <= s < q.len() && (#[trigger] q[s]).1 == u
}

/// Whether every decision vertex of `node` decides on a variable of at
/// least `bound`.
pub open spec fn floor(node: Seq<Vertex>, bound: int) -> bool {
    forall|i: int|
        2 <= i < node.len() ==> match #[trigger] node[i] {
            Vertex::Bool(_) => true,
            Vertex::Var { var_index, .. } => bound <= var_index,
        }
}

/// The fresh indexer for `graph`: the two terminals under ids 0 and 1,
/// every terminal vertex of the arena mapped to the id of its value, and no
/// decision vertex mapped yet.
pub fn build_indexer(graph: &Node) -> (r: Indexer)
    ensures
        r.node@ == seq![Vertex::Bool(false), Vertex::Bool(true)],
        r.index.len() == graph.arena().len(),
        forall|u: int|
            0 <= u < r.index.len() ==> r.index[u] == match #[trigger] graph.arena()[u] {
                Vertex::Bool(b) => Some(if b { 1usize } else { 0usize }),
                Vertex::Var { .. } => None::<usize>,
            },
{
    let mut node: Vec<Vertex> = Vec::new();
    node.push(Vertex::Bool(false));
    node.push(Vertex::Bool(true));
    assert(node@ =~= seq![Vertex::Bool(false), Vertex::Bool(true)]);
    let n = graph.vertices.len();
    let mut index: Vec<Option<usize>> = Vec::new();
    let mut u: usize = 0;
    while u < n
        invariant
            u <= n,
            n == graph.vertices.len(),
            index.len() == u,
            forall|k: int|
                0 <= k < u ==> index[k] == match #[trigger] graph.vertices[k] {
                    Vertex::Bool(b) => Some(if b { 1usize } else { 0usize }),
                    Vertex::Var { .. } => None::<usize>,
                },
        decreases n - u,
    {
        let id: Option<usize> = match graph.vertices[u] {
            Vertex::Bool(b) => Some(if b { 1 } else { 0 }),
            Vertex::Var { .. } => None,
        };
        index.push(id);
        u += 1;
    }
    Indexer { index, node }
}

/// Whether the pair `e` names a decision vertex that the root reaches,
/// with its variable.
pub open spec fn valid_level(arena: Seq<Vertex>, reach: Seq<bool>, e: (usize, usize)) -> bool {
    e.1 < arena.len() && reach[e.1 as int] && at_level(arena[e.1 as int], e.0 as int)
}

/// For each decision vertex that the root reaches, its variable and its handle.
fn level_entries(graph: &Node, reach: &Vec<bool>) -> (entries: Vec<(usize, usize)>)
    requires
        reach.len() == graph.arena().len(),
    ensures
        forall|t: int|
            0 <= t < entries.len() ==> valid_level(graph.arena(), reach@, #[trigger] entries[t]),
        forall|u: usize|
            u < reach.len() && reach[u as int] ==> match #[trigger] graph.arena()[u as int] {
                Vertex::Bool(_) => true,
                Vertex::Var { var_index, .. } => entries@.contains((var_index, u)),
            },
{
    let n = graph.vertices.len();
    let mut entries: Vec<(usize, usize)> = Vec::new();
    let mut u: usize = 0;
    while u < n
        invariant
            u <= n,
            n == graph.vertices.len(),
            reach.len() == n,
            forall|t: int|
                0 <= t < entries.len() ==> valid_level(
                    graph.vertices@,
                    reach@,
                    #[trigger] entries[t],
                ),
            forall|k: usize|
                k < u && reach[k as int] ==> match #[trigger] graph.vertices[k as int] {
                    Vertex::Bool(_) => true,
                    Vertex::Var { var_index, .. } => entries@.contains((var_index, k)),
                },
        decreases n - u,
    {
        if reach[u] {
            match graph.vertices[u] {
                Vertex::Bool(_) => {},
                Vertex::Var { var_index, .. } => {
                    let ghost before = entries@;
                    entries.push((var_index, u));
                    assert(entries[entries.len() - 1] == (var_index, u));
                    assert forall|x: (usize, usize)| before.contains(x) implies entries@.contains(
                        x,
                    ) by {
                        let w = choose|w: int| 0 <= w < before.len() && before[w] == x;
                        assert(entries[w] == x);
                    }
                },
            }
        }
        u += 1;
    }
    entries
}

/// Goes through the vertices of one level, those that `level` names from
/// `lo` up to `hi`. A vertex that the rule makes redundant takes the id of
/// its low child; the others are staged under the ids of their children.
fn stage(
    graph: &Node,
    reach: &Vec<bool>,
    level: &Vec<(usize, usize)>,
    lo: usize,
    hi: usize,
    v: usize,
    rule: Rule,
    index: &mut Vec<Option<usize>>,
    node: &Vec<Vertex>,
) -> (q: Vec<Staged>)
    requires
        graph@.ordered(),
        reach.len() == graph.arena().len(),
        forall|k: int| 0 <= k < reach.len() ==> (#[trigger] reach[k] <==> graph.reaches(k)),
        old(index).len() == graph.arena().len(),
        canonical(node@, rule),
        lo <= hi <= level.len(),
        forall|t: int|
            lo <= t < hi ==> (#[trigger] level[t]).0 == v && valid_level(
                graph.arena(),
                reach@,
                level[t],
            ),
        forall|u: int|
            0 <= u < reach.len() && #[trigger] reach[u] && level_above(graph.arena()[u], v as int)
                ==> settled(graph.arena(), u, old(index)@, node@, rule),
    ensures
        final(index).len() == old(index).len(),
        forall|u: int|
            0 <= u < reach.len() && !(reach[u] && at_level(graph.arena()[u], v as int))
                ==> #[trigger] final(index)[u] == old(index)[u],
        forall|s: int|
            0 <= s < q.len() ==> valid_entry(graph.arena(), #[trigger] q[s], v, node@, rule),
        forall|t: int|
            lo <= t < hi ==> has_handle(q@, (#[trigger] level[t]).1 as int) || settled(
                graph.arena(),
                level[t].1 as int,
                final(index)@,
                node@,
                rule,
            ),
{
    proof {
        use_type_invariant(graph);
    }
    let n = graph.vertices.len();
    let ghost arena = graph.vertices@;
    let ghost root = graph.root as int;
    let mut q: Vec<Staged> = Vec::new();
    let mut t: usize = lo;
    while t < hi
        invariant
            lo <= t <= hi <= level.len(),
            n == graph.vertices.len(),
            arena == graph.vertices@,
            root == graph.root as int,
            arena_wf(arena),
            tree_at(arena, root).ordered(),
            reach.len() == n,
            forall|k: int| 0 <= k < n ==> (#[trigger] reach[k] <==> reaches(arena, root, k)),
            index.len() == n,
            old(index).len() == n,
            canonical(node@, rule),
            forall|s: int|
                lo <= s < hi ==> (#[trigger] level[s]).0 == v && valid_level(
                    arena,
                    reach@,
                    level[s],
                ),
            forall|w: int|
                0 <= w < n && #[trigger] reach[w] && level_above(arena[w], v as int) ==> settled(
                    arena,
                    w,
                    old(index)@,
                    node@,
                    rule,
                ),
            forall|w: int|
                0 <= w < n && !(reach[w] && at_level(arena[w], v as int)) ==> #[trigger] index[w]
                    == old(index)[w],
            forall|s: int| 0 <= s < q.len() ==> valid_entry(arena, #[trigger] q[s], v, node@, rule),
            forall|s: int|
                lo <= s < t ==> has_handle(q@, (#[trigger] level[s]).1 as int) || settled(
                    arena,
                    level[s].1 as int,
                    index@,
                    node@,
                    rule,
                ),
        decreases hi - t,
    {
        let u = level[t].1;
        assert(valid_level(arena, reach@, level[t as int]));
        match graph.vertices[u] {
            Vertex::Bool(_) => {},
            Vertex::Var { var_index, low, high } => {
                proof {
                    assert(is_child(arena, u as int, low as int));
                    assert(is_child(arena, u as int, high as int));
                    lemma_reach_step(arena, root, u as int, low as int);
                    lemma_reach_step(arena, root, u as int, high as int);
                    lemma_reach_tree(arena, root, u as int);
                    assert(reach[low as int]);
                    assert(reach[high as int]);
                    assert(tree_at(arena, low as int).above(v as nat));
                    assert(tree_at(arena, high as int).above(v as nat));
                    assert(level_above(arena[low as int], v as int));
                    assert(level_above(arena[high as int], v as int));
                    assert(settled(arena, low as int, old(index)@, node@, rule));
                    assert(settled(arena, high as int, old(index)@, node@, rule));
                }
                let il = index[low].unwrap();
                let ih = index[high].unwrap();
                let drop = match rule {
                    Rule::Bdd => il == ih,
                    Rule::Zdd => ih == 0,
                };
                proof {
                    lemma_redundant_ids(node@, rule, il, ih);
                }
                let ghost before_q = q@;
                let ghost before_index = index@;
                if drop {
                    index.set(u, Some(il));
                    assert(settled(arena, u as int, index@, node@, rule));
                } else {
                    q.push(((il, ih), u));
                    assert(q[q.len() - 1].1 == u);
                    assert(has_handle(q@, u as int));
                    assert forall|w: int| has_handle(before_q, w) implies has_handle(q@, w) by {
                        let s = choose|s: int|
                            0 <= s < before_q.len() && (#[trigger] before_q[s]).1 == w;
                        assert(q[s].1 == w);
                    }
                }
                assert forall|s: int| lo <= s < t + 1 implies has_handle(
                    q@,
                    (#[trigger] level[s]).1 as int,
                ) || settled(arena, level[s].1 as int, index@, node@, rule) by {
                    let w = level[s].1 as int;
                    if s < t && w != u {
                        if !has_handle(before_q, w) {
                            assert(settled(arena, w, before_index, node@, rule));
                            assert(index[w] == before_index[w]);
                        }
                    }
                }
            },
        }
        t += 1;
    }
    q
}

/// Walks the staged vertices in the order of their keys. The first vertex
/// with a key gets a new id and a new canonical vertex; the vertices that
/// follow with the same key share that id.
fn merge(
    q: &Vec<Staged>,
    v: usize,
    rule: Rule,
    index: &mut Vec<Option<usize>>,
    node: &mut Vec<Vertex>,
    Ghost(arena): Ghost<Seq<Vertex>>,
)
    requires
        canonical(old(node)@, rule),
        floor(old(node)@, v + 1),
        old(index).len() == arena.len(),
        forall|s: int|
            0 <= s < q.len() ==> valid_entry(arena, #[trigger] q[s], v, old(node)@, rule),
        forall|i: int, j: int|
            0 <= i < j < q.len() ==> key_le((#[trigger] q[i]).0, (#[trigger] q[j]).0),
    ensures
        canonical(final(node)@, rule),
        floor(final(node)@, v as int),
        final(node).len() >= old(node).len(),
        forall|k: int| 0 <= k < old(node).len() ==> #[trigger] final(node)[k] == old(node)[k],
        final(index).len() == old(index).len(),
        forall|u: int|
            0 <= u < arena.len() && !has_handle(q@, u) ==> #[trigger] final(index)[u] == old(
                index,
            )[u],
        forall|s: int|
            0 <= s < q.len() ==> settled(
                arena,
                (#[trigger] q[s]).1 as int,
                final(index)@,
                final(node)@,
                rule,
            ),
{
    let ghost node0 = node@;
    let n0 = node.len();
    let mut prev: Option<(usize, usize)> = None;
    let mut t: usize = 0;
    while t < q.len()
        invariant
            t <= q.len(),
            node0 == old(node)@,
            n0 == node0.len(),
            canonical(node0, rule),
            floor(node0, v + 1),
            forall|s: int| 0 <= s < q.len() ==> valid_entry(arena, #[trigger] q[s], v, node0, rule),
            forall|i: int, j: int|
                0 <= i < j < q.len() ==> key_le((#[trigger] q[i]).0, (#[trigger] q[j]).0),
            node.len() >= n0,
            forall|k: int| 0 <= k < n0 ==> #[trigger] node[k] == node0[k],
            canonical(node@, rule),
            forall|id: int|
                n0 <= id < node.len() ==> match #[trigger] node[id] {
                    Vertex::Bool(_) => false,
                    Vertex::Var { var_index, low, high } => var_index == v && t > 0 && key_le(
                        (low, high),
                        q[t - 1].0,
                    ),
                },
            t == 0 ==> prev is None && node.len() == n0,
            t > 0 ==> prev == Some(q[t - 1].0) && node.len() > n0 && node[node.len() - 1] == (
            Vertex::Var { var_index: v, low: q[t - 1].0.0, high: q[t - 1].0.1 }),
            index.len() == arena.len(),
            old(index).len() == arena.len(),
            forall|u: int|
                0 <= u < arena.len() && !has_handle(q@, u) ==> #[trigger] index[u] == old(index)[u],
            forall|s: int|
                0 <= s < t ==> settled(arena, (#[trigger] q[s]).1 as int, index@, node@, rule),
        decreases q.len() - t,
    {
        let key = q[t].0;
        let u = q[t].1;
        let same = match prev {
            Some(p) => p.0 == key.0 && p.1 == key.1,
            None => false,
        };
        let ghost before_node = node@;
        let ghost before_index = index@;
        proof {
            assert(valid_entry(arena, q[t as int], v, node0, rule));
            lemma_canonical_wf(node0, rule);
            lemma_redundant_ids(node0, rule, key.0, key.1);
            lemma_tree_at_agree(node0, before_node, key.0 as int);
            lemma_tree_at_agree(node0, before_node, key.1 as int);
            if t > 0 {
                assert(key_le(q[t - 1].0, q[t as int].0));
            }
        }
        if !same {
            proof {
                assert forall|i: int|
                    n0 <= i < before_node.len() implies match #[trigger] before_node[i] {
                    Vertex::Bool(_) => false,
                    Vertex::Var { var_index, low, high } => var_index == v && (low, high) != key,
                } by {}
                assert forall|i: int| 2 <= i < n0 implies level_above(
                    #[trigger] before_node[i],
                    v as int,
                ) by {
                    assert(before_node[i] == node0[i]);
                }
                lemma_push_canonical(before_node, n0 as int, v, key, rule);
            }
            node.push(Vertex::Var { var_index: v, low: key.0, high: key.1 });
            prev = Some(key);
        }
        let id = node.len() - 1;
        index.set(u, Some(id));
        proof {
            assert(q[t as int].1 == u);
            assert(has_handle(q@, u as int));
            lemma_canonical_wf(node@, rule);
            assert forall|w: int| 0 <= w < before_node.len() implies tree_at(node@, w) == tree_at(
                before_node,
                w,
            ) by {
                lemma_tree_at_agree(before_node, node@, w);
            }
            assert(node[id as int] == Vertex::Var { var_index: v, low: key.0, high: key.1 });
            assert(tree_at(node@, id as int) == Tree::Branch(
                v as nat,
                Box::new(tree_at(node@, key.0 as int)),
                Box::new(tree_at(node@, key.1 as int)),
            ));
            assert(settled(arena, u as int, index@, node@, rule));
            assert forall|s: int| 0 <= s < t + 1 implies settled(
                arena,
                (#[trigger] q[s]).1 as int,
                index@,
                node@,
                rule,
            ) by {
                if q[s].1 != u {
                    assert(settled(arena, q[s].1 as int, before_index, before_node, rule));
                }
            }
            assert forall|id2: int| n0 <= id2 < node.len() implies match #[trigger] node[id2] {
                Vertex::Bool(_) => false,
                Vertex::Var { var_index, low, high } => var_index == v && key_le(
                    (low, high),
                    q[t as int].0,
                ),
            } by {
                if id2 < before_node.len() {
                    assert(node[id2] == before_node[id2]);
                }
            }
        }
        t += 1;
    }
    proof {
        assert forall|i: int| 2 <= i < node.len() implies match #[trigger] node[i] {
            Vertex::Bool(_) => true,
            Vertex::Var { var_index, .. } => v <= var_index,
        } by {
            if i < n0 {
                assert(node[i] == node0[i]);
            }
        }
    }
}

/// The canonical form of `graph` under `rule`.
///
/// The vertices are taken level by level, from the greatest variable to the
/// least, so that the children of a vertex have their canonical ids before
/// the vertex is looked at. The result denotes the reduced form of the tree
/// below the root of `graph`, in an arena where no vertex occurs twice.
pub fn reduce_graph(graph: &Node, rule: Rule) -> (r: Node)
    requires
        graph@.ordered(),
    ensures
        r@ == graph@.reduced(rule),
        canonical(r.arena(), rule),
        r.node_count() == graph@.reduced(rule).subtrees().len(),
{
    proof {
        use_type_invariant(graph);
        reveal(Node::node_count);
    }
    let n = graph.vertices.len();
    let root = graph.root;
    let ghost arena = graph.vertices@;
    let ix = build_indexer(graph);
    let mut index = ix.index;
    let mut node = ix.node;
    assert(canonical(node@, rule));
    match graph.vertices[root] {
        Vertex::Bool(b) => {
            let id: usize = if b { 1 } else { 0 };
            proof {
                lemma_canonical_wf(node@, rule);
                lemma_canonical_count(node@, rule, id as int);
            }
            return Node { vertices: node, root: id };
        },
        Vertex::Var { .. } => {},
    }
    let reach = graph.marks();
    let entries = level_entries(graph, &reach);
    let levels = sorted_levels(entries);
    proof {
        lemma_same_elements(levels@, entries@);
        assert forall|t: int| 0 <= t < levels.len() implies valid_level(
            arena,
            reach@,
            #[trigger] levels[t],
        ) by {
            assert(levels@.contains(levels[t]));
            let w = choose|w: int| 0 <= w < entries.len() && entries[w] == levels[t];
            assert(valid_level(arena, reach@, entries[w]));
        }
        assert(reach[root as int]);
        assert(levels@.len() > 0) by {
            match arena[root as int] {
                Vertex::Bool(_) => {},
                Vertex::Var { var_index, .. } => {
                    assert(levels@.contains((var_index, root)));
                },
            }
        }
    }
    let mut hi: usize = levels.len();
    let ghost mut bound: int = usize::MAX + 1;
    while hi > 0
        invariant
            hi <= levels.len(),
            levels.len() > 0,
            n == graph.vertices.len(),
            arena == graph.vertices@,
            root == graph.root,
            arena_wf(arena),
            graph@.ordered(),
            reach.len() == n,
            forall|k: int| 0 <= k < n ==> (#[trigger] reach[k] <==> graph.reaches(k)),
            forall|i: int, j: int|
                0 <= i < j < levels.len() ==> key_le(#[trigger] levels[i], #[trigger] levels[j]),
            forall|t: int|
                0 <= t < levels.len() ==> valid_level(arena, reach@, #[trigger] levels[t]),
            forall|u: usize|
                u < n && reach[u as int] ==> match #[trigger] arena[u as int] {
                    Vertex::Bool(_) => true,
                    Vertex::Var { var_index, .. } => levels@.contains((var_index, u)),
                },
            index.len() == n,
            canonical(node@, rule),
            floor(node@, bound),
            bound == if hi < levels.len() {
                levels[hi as int].0 as int
            } else {
                usize::MAX + 1
            },
            0 < hi < levels.len() ==> levels[hi - 1].0 < levels[hi as int].0,
            forall|u: int|
                0 <= u < n && #[trigger] reach[u] && level_above(arena[u], bound - 1) ==> settled(
                    arena,
                    u,
                    index@,
                    node@,
                    rule,
                ),
        decreases hi,
    {
        let v = levels[hi - 1].0;
        let mut lo: usize = hi - 1;
        while lo > 0 && levels[lo - 1].0 == v
            invariant
                lo < hi <= levels.len(),
                forall|t: int| lo <= t < hi ==> (#[trigger] levels[t]).0 == v,
            decreases lo,
        {
            lo -= 1;
        }
        proof {
            assert(v < bound);
            if lo > 0 {
                assert(key_le(levels[lo - 1], levels[lo as int]));
            }
            assert forall|u: int|
                0 <= u < n && #[trigger] reach[u] && level_above(
                    arena[u],
                    v as int,
                ) implies settled(
                arena,
                u,
                index@,
                node@,
                rule,
            ) by {
                match arena[u] {
                    Vertex::Bool(_) => {},
                    Vertex::Var { var_index, .. } => {
                        assert(levels@.contains((var_index, u as usize)));
                        let p = choose|p: int|
                            0 <= p < levels.len() && levels[p] == (var_index, u as usize);
                        if p < hi - 1 {
                            assert(key_le(levels[p], levels[hi - 1]));
                        }
                        if p > hi {
                            assert(key_le(levels[hi as int], levels[p]));
                        }
                        assert(var_index >= bound);
                    },
                }
            }
        }
        let ghost index0 = index@;
        let ghost node0 = node@;
        let mut q = stage(graph, &reach, &levels, lo, hi, v, rule, &mut index, &node);
        let ghost staged = q@;
        let ghost index1 = index@;
        sort_by_key(&mut q);
        proof {
            lemma_same_elements(q@, staged);
            assert forall|s: int| 0 <= s < q.len() implies valid_entry(
                arena,
                #[trigger] q[s],
                v,
                node@,
                rule,
            ) by {
                assert(q@.contains(q[s]));
                assert(staged.contains(q[s]));
                let w = choose|w: int| 0 <= w < staged.len() && staged[w] == q[s];
                assert(valid_entry(arena, staged[w], v, node@, rule));
            }
            assert forall|i: int| 2 <= i < node.len() implies match #[trigger] node[i] {
                Vertex::Bool(_) => true,
                Vertex::Var { var_index, .. } => v + 1 <= var_index,
            } by {}
        }
        merge(&q, v, rule, &mut index, &mut node, Ghost(arena));
        proof {
            lemma_canonical_wf(node0, rule);
            lemma_canonical_wf(node@, rule);
            assert forall|w: int| 0 <= w < node0.len() implies tree_at(node@, w) == tree_at(
                node0,
                w,
            ) by {
                lemma_tree_at_agree(node0, node@, w);
            }
            assert forall|u: int|
                0 <= u < n && #[trigger] reach[u] && level_above(arena[u], v - 1) implies settled(
                arena,
                u,
                index@,
                node@,
                rule,
            ) by {
                if has_handle(q@, u) {
                    let s = choose|s: int| 0 <= s < q.len() && (#[trigger] q[s]).1 == u;
                    assert(settled(arena, q[s].1 as int, index@, node@, rule));
                } else {
                    assert(index[u] == index1[u]);
                    match arena[u] {
                        Vertex::Bool(_) => {
                            assert(index1[u] == index0[u]);
                            assert(settled(arena, u, index0, node0, rule));
                        },
                        Vertex::Var { var_index, .. } => {
                            if var_index == v {
                                assert(levels@.contains((var_index, u as usize)));
                                let p = choose|p: int|
                                    0 <= p < levels.len() && levels[p] == (var_index, u as usize);
                                if p >= hi {
                                    if p > hi {
                                        assert(key_le(levels[hi as int], levels[p]));
                                    }
                                    assert(false);
                                }
                                if p < lo {
                                    if p < lo - 1 {
                                        assert(key_le(levels[p], levels[lo - 1]));
                                    }
                                    assert(false);
                                }
                                assert(levels[p].1 == u);
                                if has_handle(staged, u) {
                                    let s = choose|s: int|
                                        0 <= s < staged.len() && (#[trigger] staged[s]).1 == u;
                                    assert(staged.contains(staged[s]));
                                    assert(q@.contains(staged[s]));
                                    let w = choose|w: int| 0 <= w < q.len() && q[w] == staged[s];
                                    assert(q[w].1 == u);
                                    assert(false);
                                }
                                assert(settled(arena, u, index1, node0, rule));
                            } else {
                                assert(level_above(arena[u], v as int));
                                assert(index1[u] == index0[u]);
                                assert(settled(arena, u, index0, node0, rule));
                            }
                        },
                    }
                }
            }
            bound = v as int;
        }
        hi = lo;
    }
    proof {
        assert(settled(arena, root as int, index@, node@, rule)) by {
            assert(reach[root as int]);
            match arena[root as int] {
                Vertex::Bool(_) => {},
                Vertex::Var { var_index, .. } => {
                    assert(levels@.contains((var_index, root)));
                    let p = choose|p: int| 0 <= p < levels.len() && levels[p] == (var_index, root);
                    if p > 0 {
                        assert(key_le(levels[0], levels[p]));
                    }
                },
            }
        }
        lemma_canonical_wf(node@, rule);
        lemma_canonical_count(node@, rule, index[root as int].unwrap() as int);
    }
    let new_root = index[root].unwrap();
    Node { vertices: node, root: new_root }
}

} // verus!
