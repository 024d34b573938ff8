//! Substitution of a diagram for a variable of another: a descent over
//! triples of vertices in which each triple is worked out once, and, for
//! families of sets, the cofactors of a diagram for one variable.
use std::collections::HashMap;
use vstd::prelude::*;
use crate::apply::{
    cofactors, extends, least_level, lemma_extends_tree, lemma_pair_key_injective, level_of,
    make_key, pair_key, raw_arena,
};
use crate::arena::{arena_wf, lemma_tree_at_agree, tree_at};
use crate::node::{copy_prefix, Node, Vertex};
use crate::tree::{Rule, Tree};

verus! {

broadcast use vstd::std_specs::hash::group_hash_axioms;

/// Whether every remembered triple names the vertex of `out` above the
/// composition of the trees below the triple.
pub open spec fn links_ok(
    m: Map<u128, HashMap<usize, usize>>,
    a: Seq<Vertex>,
    b: Seq<Vertex>,
    out: Seq<Vertex>,
    control: usize,
) -> bool {
    forall|i: usize, j: usize, k: usize|
        m.contains_key(#[trigger] pair_key(i, j)) && #[trigger] m[pair_key(i, j)]@.contains_key(k)
            ==> i < a.len() && j < a.len() && k < b.len() && m[pair_key(i, j)]@[k] < out.len()
            && tree_at(out, m[pair_key(i, j)]@[k] as int) == Tree::compose(
            tree_at(a, i as int),
            tree_at(a, j as int),
            tree_at(b, k as int),
            control as nat,
        )
}

/// Whether the triple of handles `(i, j, k)` is remembered.
pub open spec fn remembered(
    m: Map<u128, HashMap<usize, usize>>,
    i: usize,
    j: usize,
    k: usize,
) -> bool {
    m.contains_key(pair_key(i, j)) && m[pair_key(i, j)]@.contains_key(k)
}

/// The handle that is remembered for the triple `(i, j, k)`.
pub open spec fn recalled(
    m: Map<u128, HashMap<usize, usize>>,
    i: usize,
    j: usize,
    k: usize,
) -> usize {
    m[pair_key(i, j)]@[k]
}

/// The handle in `out` of the composition of the vertices `low` and `high`
/// of `a` with the vertex `other` of `b`, which is added to `out` unless
/// the triple is remembered. Afterwards the triple is remembered with that
/// handle, next to everything that was remembered before; only triples at
/// or below this one are added.
pub(crate) fn compose_aux(
    a: &Vec<Vertex>,
    b: &Vec<Vertex>,
    low: usize,
    high: usize,
    other: usize,
    control: usize,
    out: &mut Vec<Vertex>,
    links: &mut HashMap<u128, HashMap<usize, usize>>,
) -> (r: usize)
    requires
        arena_wf(a@),
        arena_wf(b@),
        low < a.len(),
        high < a.len(),
        other < b.len(),
        raw_arena(old(out)@),
        links_ok(old(links)@, a@, b@, old(out)@, control),
    ensures
        raw_arena(final(out)@),
        extends(final(out)@, old(out)@),
        links_ok(final(links)@, a@, b@, final(out)@, control),
        r < final(out).len(),
        tree_at(final(out)@, r as int) == Tree::compose(
            tree_at(a@, low as int),
            tree_at(a@, high as int),
            tree_at(b@, other as int),
            control as nat,
        ),
        remembered(final(links)@, low, high, other),
        recalled(final(links)@, low, high, other) == r,
        forall|i2: usize, j2: usize, k2: usize| #[trigger]
            remembered(old(links)@, i2, j2, k2) ==> remembered(final(links)@, i2, j2, k2)
                && recalled(final(links)@, i2, j2, k2) == recalled(old(links)@, i2, j2, k2),
        forall|i2: usize, j2: usize, k2: usize| #[trigger]
            remembered(final(links)@, i2, j2, k2) ==> remembered(old(links)@, i2, j2, k2) || i2
                + j2 + k2 <= low + high + other,
    decreases low + high + other,
{
    let hash_key = make_key(low, high);
    match links.get(&hash_key) {
        Some(inner) => match inner.get(&other) {
            Some(n) => {
                return *n;
            },
            None => {},
        },
        None => {},
    }
    let ghost to = tree_at(b@, other as int);
    let l1 = cofactors(Rule::Bdd, a[low], low, control, Ghost(a@)).0;
    let h1 = cofactors(Rule::Bdd, a[high], high, control, Ghost(a@)).1;
    let vl = a[l1];
    let vh = a[h1];
    let vo = b[other];
    let ghost t1 = tree_at(a@, l1 as int);
    let ghost t2 = tree_at(a@, h1 as int);
    let r: usize = match least_level(least_level(level_of(vl), level_of(vh)), level_of(vo)) {
        None => {
            let x = match vl {
                Vertex::Bool(x) => x,
                _ => false,
            };
            let y = match vh {
                Vertex::Bool(y) => y,
                _ => false,
            };
            let z = match vo {
                Vertex::Bool(z) => z,
                _ => false,
            };
            let id: usize = if (!z && x) || (z && y) {
                1
            } else {
                0
            };
            id
        },
        Some(k) => {
            let cl = cofactors(Rule::Bdd, vl, l1, k, Ghost(a@));
            let ch = cofactors(Rule::Bdd, vh, h1, k, Ghost(a@));
            let co = cofactors(Rule::Bdd, vo, other, k, Ghost(b@));
            let l = compose_aux(a, b, cl.0, ch.0, co.0, control, out, links);
            let ghost out1 = out@;
            let h = compose_aux(a, b, cl.1, ch.1, co.1, control, out, links);
            let ghost out2 = out@;
            out.push(Vertex::Var { var_index: k, low: l, high: h });
            proof {
                lemma_extends_tree(out2, out1);
                lemma_extends_tree(out@, out2);
                assert(arena_wf(out@)) by {
                    assert forall|w: int| 0 <= w < out.len() implies match #[trigger] out[w] {
                        Vertex::Bool(_) => true,
                        Vertex::Var { low, high, .. } => low < w && high < w,
                    } by {}
                }
                    assert(tree_at(out@, l as int) == Tree::compose(
                    t1.low_of(k as nat),
                    t2.low_of(k as nat),
                    to.low_of(k as nat),
                    control as nat,
                ));
                assert(tree_at(out@, h as int) == Tree::compose(
                    t1.high_of(k as nat),
                    t2.high_of(k as nat),
                    to.high_of(k as nat),
                    control as nat,
                ));
            }
            out.len() - 1
        },
    };
    let ghost before = links@;
    assert(!remembered(before, low, high, other));
    let mut inner = match links.remove(&hash_key) {
        Some(m) => m,
        None => HashMap::new(),
    };
    inner.insert(other, r);
    links.insert(hash_key, inner);
    proof {
        assert forall|i2: usize, j2: usize, k2: usize| #[trigger]
            remembered(before, i2, j2, k2) implies remembered(links@, i2, j2, k2) && recalled(
            links@,
            i2,
            j2,
            k2,
        ) == recalled(before, i2, j2, k2) by {
            if pair_key(i2, j2) == hash_key {
                lemma_pair_key_injective(i2, j2, low, high);
            }
        }
        assert forall|i2: usize, j2: usize, k2: usize| #[trigger]
            remembered(links@, i2, j2, k2) implies remembered(before, i2, j2, k2) || (i2 == low
            && j2 == high && k2 == other) by {
            if pair_key(i2, j2) == hash_key {
                lemma_pair_key_injective(i2, j2, low, high);
            }
        }
        assert forall|i2: usize, j2: usize, k2: usize|
            links@.contains_key(#[trigger] pair_key(i2, j2)) && #[trigger] links@[pair_key(
                i2,
                j2,
            )]@.contains_key(k2) implies i2 < a.len() && j2 < a.len() && k2 < b.len()
            && links@[pair_key(i2, j2)]@[k2] < out.len() && tree_at(
            out@,
            links@[pair_key(i2, j2)]@[k2] as int,
        ) == Tree::compose(
            tree_at(a@, i2 as int),
            tree_at(a@, j2 as int),
            tree_at(b@, k2 as int),
            control as nat,
        ) by {
            if pair_key(i2, j2) == hash_key {
                lemma_pair_key_injective(i2, j2, low, high);
            }
        }
    }
    r
}

/// The diagram for `a` with the variable `var_index` replaced by `b`, not
/// yet reduced.
pub fn compose_graphs(a: &Node, b: &Node, var_index: usize) -> (r: Node)
    ensures
        r@ == Tree::compose(a@, a@, b@, var_index as nat),
{
    proof {
        use_type_invariant(a);
        use_type_invariant(b);
    }
    let mut out: Vec<Vertex> = Vec::new();
    out.push(Vertex::Bool(false));
    out.push(Vertex::Bool(true));
    let mut links: HashMap<u128, HashMap<usize, usize>> = HashMap::new();
    let root = compose_aux(
        &a.vertices,
        &b.vertices,
        a.root,
        a.root,
        b.root,
        var_index,
        &mut out,
        &mut links,
    );
    Node { vertices: out, root }
}

/// The tree of `t` with the variable `control` fixed at `value`, read as a
/// family of sets.
pub open spec fn fixed(t: Tree, control: nat, value: bool) -> Tree {
    if value {
        t.at_one(control)
    } else {
        t.at_zero(control)
    }
}

/// The diagram of `a`, read as a family of sets, with the variable
/// `control` fixed at `value`: it holds a set whether or not `control` is
/// in it, where `a` holds the set with `control` in it for `value` true,
/// without it for `value` false. The terminal false is taken from handle 0
/// of the arena.
pub fn fix_graph(a: &Node, control: usize, value: bool) -> (r: Node)
    requires
        0 < a.arena().len(),
        a.arena()[0] == Vertex::Bool(false),
    ensures
        r@ == fixed(a@, control as nat, value),
{
    proof {
        use_type_invariant(a);
    }
    let n = a.root + 1;
    let mut out = copy_prefix(&a.vertices, n);
    let ghost base = out@;
    let mut map: Vec<usize> = Vec::new();
    let mut i: usize = 0;
    proof {
        lemma_extends_tree(out@, base);
    }
    while i < n
        invariant
            i <= n,
            n == a.root + 1,
            n <= a.vertices.len(),
            arena_wf(a.vertices@),
            a.vertices@[0] == Vertex::Bool(false),
            base == a.vertices@.take(n as int),
            extends(out@, base),
            arena_wf(out@),
            map.len() == i,
            forall|k: int|
                0 <= k < i ==> (#[trigger] map[k]) < out.len() && tree_at(out@, map[k] as int)
                    == fixed(tree_at(a.vertices@, k), control as nat, value),
        decreases n - i,
    {
        let ghost before = out@;
        let ghost t = tree_at(a.vertices@, i as int);
        let x = a.vertices[i];
        proof {
            lemma_tree_at_agree(a.vertices@, base, i as int);
            lemma_extends_tree(before, base);
            assert(tree_at(before, i as int) == t);
            assert(before[0] == base[0]);
            assert(tree_at(before, 0) == Tree::Leaf(false));
        }
        let h: usize = match x {
            Vertex::Bool(_) => {
                if value {
                    0
                } else {
                    out.push(Vertex::Var { var_index: control, low: i, high: i });
                    proof {
                        lemma_extends_tree(out@, before);
                        assert(tree_at(out@, i as int) == t);
                    }
                    out.len() - 1
                }
            },
            Vertex::Var { var_index, low, high } => {
                proof {
                    lemma_tree_at_agree(a.vertices@, base, low as int);
                    lemma_tree_at_agree(a.vertices@, base, high as int);
                    assert(tree_at(before, low as int) == tree_at(a.vertices@, low as int));
                    assert(tree_at(before, high as int) == tree_at(a.vertices@, high as int));
                    assert(t == Tree::Branch(
                        var_index as nat,
                        Box::new(tree_at(a.vertices@, low as int)),
                        Box::new(tree_at(a.vertices@, high as int)),
                    ));
                }
                if var_index < control {
                    let l = map[low];
                    let r = map[high];
                    out.push(Vertex::Var { var_index, low: l, high: r });
                    proof {
                        lemma_extends_tree(out@, before);
                        assert(tree_at(out@, l as int) == fixed(
                            tree_at(a.vertices@, low as int),
                            control as nat,
                            value,
                        ));
                        assert(tree_at(out@, r as int) == fixed(
                            tree_at(a.vertices@, high as int),
                            control as nat,
                            value,
                        ));
                    }
                    out.len() - 1
                } else if var_index == control {
                    let child = if value {
                        high
                    } else {
                        low
                    };
                    out.push(Vertex::Var { var_index: control, low: child, high: child });
                    proof {
                        lemma_extends_tree(out@, before);
                        assert(tree_at(out@, child as int) == tree_at(before, child as int));
                    }
                    out.len() - 1
                } else if value {
                    0
                } else {
                    out.push(Vertex::Var { var_index: control, low: i, high: i });
                    proof {
                        lemma_extends_tree(out@, before);
                        assert(tree_at(out@, i as int) == t);
                    }
                    out.len() - 1
                }
            },
        };
        proof {
            assert(extends(out@, before));
            assert(arena_wf(out@)) by {
                assert forall|w: int| 0 <= w < out.len() implies match #[trigger] out[w] {
                    Vertex::Bool(_) => true,
                    Vertex::Var { low, high, .. } => low < w && high < w,
                } by {
                    if w < before.len() {
                        assert(out[w] == before[w]);
                    }
                }
            }
            lemma_extends_tree(out@, before);
            assert(tree_at(out@, h as int) == fixed(t, control as nat, value));
        }
        map.push(h);
        i += 1;
    }
    let root = map[a.root];
    Node { vertices: out, root }
}

} // verus!
