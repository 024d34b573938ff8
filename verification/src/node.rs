//! Vertices and the arena that holds a diagram.
use vstd::prelude::*;
use crate::arena::{
    arena_wf, count_reached, is_child, lemma_count_agree, lemma_reach_agree, lemma_reach_bound,
    lemma_reach_parent, lemma_reach_step, lemma_tree_at_agree, reaches, tree_at,
};
use crate::dd::DecisionDiagram;
use crate::graphviz::write_graph;
use crate::tree::Tree;

pub mod example;

verus! {

/// One vertex of a diagram. The children of a decision vertex are handles:
/// positions in the arena that holds the vertex.
#[derive(Clone, Copy, Debug, PartialEq, Eq, Structural)]
pub enum Vertex {
    /// A terminal: a boolean constant.
    Bool(bool),
    /// A decision on the variable `var_index`, which leads to `low` when
    /// the variable is 0 and to `high` when it is 1.
    Var { var_index: usize, low: usize, high: usize },
}

impl Default for Vertex {
    fn default() -> (r: Self)
        ensures
            r == Vertex::Bool(false),
    {
        Vertex::Bool(false)
    }
}

/// A vertex together with everything below it.
#[derive(Debug)]
pub struct Node {
    pub(crate) vertices: Vec<Vertex>,
    pub(crate) root: usize,
}

impl View for Node {
    type V = Tree;

    open(crate) spec fn view(&self) -> Tree {
        tree_at(self.vertices@, self.root as int)
    }
}

/// A copy of the first `n` vertices of `src`.
pub(crate) fn copy_prefix(src: &Vec<Vertex>, n: usize) -> (r: Vec<Vertex>)
    requires
        n <= src.len(),
    ensures
        r@ == src@.take(n as int),
{
    let mut r: Vec<Vertex> = Vec::new();
    let mut i: usize = 0;
    while i < n
        invariant
            i <= n <= src.len(),
            r@ == src@.take(i as int),
        decreases n - i,
    {
        r.push(src[i]);
        i += 1;
    }
    r
}

impl Node {
    /// The arena is well formed and holds the root.
    #[verifier::type_invariant]
    pub open(crate) spec fn wf(self) -> bool {
        arena_wf(self.vertices@) && self.root < self.vertices.len()
    }

    /// The vertices of the arena, by handle.
    pub open(crate) spec fn arena(self) -> Seq<Vertex> {
        self.vertices@
    }

    /// The handle of the root.
    pub open(crate) spec fn root_handle(self) -> int {
        self.root as int
    }

    /// Whether the vertex with handle `k` lies on a path from the root.
    pub open(crate) spec fn reaches(self, k: int) -> bool {
        reaches(self.vertices@, self.root as int, k)
    }

    /// The number of distinct vertices on paths from the root, the root included.
    #[verifier::opaque]
    pub open(crate) spec fn node_count(self) -> nat {
        count_reached(self.vertices@, self.root as int, self.vertices.len() as int)
    }

    /// The node of one terminal vertex.
    pub(crate) fn terminal(b: bool) -> (r: Node)
        ensures
            r@ == Tree::Leaf(b),
            r.arena() == seq![Vertex::Bool(b)],
            r.root_handle() == 0,
            r.node_count() == 1,
    {
        let mut vertices: Vec<Vertex> = Vec::new();
        vertices.push(Vertex::Bool(b));
        reveal(Node::node_count);
        assert(count_reached(vertices@, 0, 1) == 1) by {
            assert(count_reached(vertices@, 0, 0) == 0);
        }
        Node { vertices, root: 0 }
    }

    /// The node below the vertex with handle `h`.
    pub(crate) fn subgraph(&self, h: usize) -> (r: Node)
        requires
            h <= self.root,
        ensures
            r@ == tree_at(self.arena(), h as int),
            r.arena() == self.arena().take(h + 1),
            r.root_handle() == h,
    {
        proof {
            use_type_invariant(self);
        }
        node_of(&self.vertices, h)
    }

    /// What holds of every node: every decision vertex of its arena points
    /// to earlier vertices, and the root is a vertex of the arena.
    pub proof fn lemma_well_formed(self)
        requires
            self.wf(),
        ensures
            arena_wf(self.arena()),
            0 <= self.root_handle() < self.arena().len(),
    {
    }

    /// The value of a terminal node, `None` for a decision node.
    pub fn is_constant(&self) -> (r: Option<bool>)
        ensures
            r == match self@ {
                Tree::Leaf(b) => Some(b),
                Tree::Branch(_, _, _) => None,
            },
    {
        proof {
            use_type_invariant(self);
        }
        match self.vertices[self.root] {
            Vertex::Bool(b) => Some(b),
            Vertex::Var { .. } => None,
        }
    }

    /// The variable of a decision node, `None` for a terminal node.
    pub fn var_index(&self) -> (r: Option<usize>)
        ensures
            match self@ {
                Tree::Leaf(_) => r is None,
                Tree::Branch(v, _, _) => r matches Some(w) && w as nat == v,
            },
    {
        proof {
            use_type_invariant(self);
        }
        match self.vertices[self.root] {
            Vertex::Bool(_) => None,
            Vertex::Var { var_index, .. } => Some(var_index),
        }
    }

    /// The key by which nodes are compared for branching: 0 and 1 for the
    /// terminals, the variable plus 2 for a decision node.
    pub fn unified_key(&self) -> (r: usize)
        requires
            self@ matches Tree::Branch(v, _, _) ==> v + 2 <= usize::MAX,
        ensures
            r as nat == match self@ {
                Tree::Leaf(b) => if b { 1nat } else { 0nat },
                Tree::Branch(v, _, _) => v + 2,
            },
    {
        proof {
            use_type_invariant(self);
        }
        match self.vertices[self.root] {
            Vertex::Bool(b) => if b { 1 } else { 0 },
            Vertex::Var { var_index, .. } => var_index + 2,
        }
    }

    /// The low child of a decision node, `None` for a terminal node.
    pub fn low(&self) -> (r: Option<Node>)
        ensures
            match self@ {
                Tree::Leaf(_) => r is None,
                Tree::Branch(_, l, _) => r matches Some(n) && n@ == *l,
            },
            r matches Some(n) ==> (n.arena() == self.arena().take(n.root_handle() + 1) && (
            self.arena()[self.root_handle()] matches Vertex::Var { low, .. } && n.root_handle()
                == low)),
    {
        proof {
            use_type_invariant(self);
        }
        match self.vertices[self.root] {
            Vertex::Bool(_) => None,
            Vertex::Var { low, .. } => Some(self.subgraph(low)),
        }
    }

    /// The high child of a decision node, `None` for a terminal node.
    pub fn high(&self) -> (r: Option<Node>)
        ensures
            match self@ {
                Tree::Leaf(_) => r is None,
                Tree::Branch(_, _, h) => r matches Some(n) && n@ == *h,
            },
            r matches Some(n) ==> (n.arena() == self.arena().take(n.root_handle() + 1) && (
            self.arena()[self.root_handle()] matches Vertex::Var { high, .. } && n.root_handle()
                == high)),
    {
        proof {
            use_type_invariant(self);
        }
        match self.vertices[self.root] {
            Vertex::Bool(_) => None,
            Vertex::Var { high, .. } => Some(self.subgraph(high)),
        }
    }

    /// Whether the variables strictly increase along every path from the root.
    pub fn is_ordered(&self) -> (r: bool)
        ensures
            r == self@.ordered(),
    {
        proof {
            use_type_invariant(self);
        }
        let root = self.root;
        let mut ord: Vec<bool> = Vec::new();
        let mut i: usize = 0;
        while i <= root
            invariant
                i <= root + 1,
                root < self.vertices.len(),
                arena_wf(self.vertices@),
                ord.len() == i,
                forall|k: int| 0 <= k < i ==> ord[k] == tree_at(self.vertices@, k).ordered(),
            decreases root + 1 - i,
        {
            let value = match self.vertices[i] {
                Vertex::Bool(_) => true,
                Vertex::Var { var_index, low, high } => {
                    let low_above = match self.vertices[low] {
                        Vertex::Bool(_) => true,
                        Vertex::Var { var_index: w, .. } => var_index < w,
                    };
                    let high_above = match self.vertices[high] {
                        Vertex::Bool(_) => true,
                        Vertex::Var { var_index: w, .. } => var_index < w,
                    };
                    assert(tree_at(self.vertices@, low as int).above(var_index as nat)
                        == low_above);
                    assert(tree_at(self.vertices@, high as int).above(var_index as nat)
                        == high_above);
                    low_above && high_above && ord[low] && ord[high]
                },
            };
            ord.push(value);
            i += 1;
        }
        ord[root]
    }

    /// For each handle of the arena, whether the root reaches it.
    pub(crate) fn marks(&self) -> (m: Vec<bool>)
        ensures
            m.len() == self.arena().len(),
            forall|k: int| 0 <= k < m.len() ==> (#[trigger] m[k] <==> self.reaches(k)),
    {
        proof {
            use_type_invariant(self);
        }
        let n = self.vertices.len();
        let root = self.root;
        let mut m: Vec<bool> = Vec::new();
        let mut j: usize = 0;
        while j < n
            invariant
                j <= n,
                m.len() == j,
                forall|k: int| 0 <= k < j ==> !m[k],
            decreases n - j,
        {
            m.push(false);
            j += 1;
        }
        m.set(root, true);
        let mut i: usize = root + 1;
        proof {
            assert forall|k: int| i <= k < n implies !reaches(self.vertices@, root as int, k) by {
                if reaches(self.vertices@, root as int, k) {
                    lemma_reach_bound(self.vertices@, root as int, k);
                }
            }
        }
        while i > 0
            invariant
                i <= root + 1,
                root < n,
                n == self.vertices.len(),
                root == self.root,
                m.len() == n,
                arena_wf(self.vertices@),
                m[root as int],
                forall|k: int| 0 <= k < n && m[k] ==> reaches(self.vertices@, root as int, k),
                forall|k: int| i <= k < n && reaches(self.vertices@, root as int, k) ==> m[k],
                forall|p: int, k: int|
                    i <= p < n && m[p] && #[trigger] is_child(self.vertices@, p, k) ==> m[k],
            decreases i,
        {
            i -= 1;
            proof {
                if reaches(self.vertices@, root as int, i as int) && i != root {
                    let p = lemma_reach_parent(self.vertices@, root as int, i as int);
                }
            }
            if m[i] {
                match self.vertices[i] {
                    Vertex::Bool(_) => {},
                    Vertex::Var { low, high, .. } => {
                        proof {
                            lemma_reach_step(self.vertices@, root as int, i as int, low as int);
                            lemma_reach_step(self.vertices@, root as int, i as int, high as int);
                        }
                        m.set(low, true);
                        m.set(high, true);
                    },
                }
            }
        }
        proof {
            assert forall|k: int| 0 <= k < m.len() implies (#[trigger] m[k] <==> self.reaches(
                k,
            )) by {
                if reaches(self.vertices@, root as int, k) {
                    lemma_reach_bound(self.vertices@, root as int, k);
                }
            }
        }
        m
    }

    /// For each handle up to the root the number of paths to true below it,
    /// `None` where that number does not fit.
    fn path_counts(&self) -> (cnt: Vec<Option<usize>>)
        ensures
            cnt.len() == self.root_handle() + 1,
            forall|k: int|
                0 <= k < cnt.len() ==> cnt[k] == fitting(
                    tree_at(self.arena(), k).count_paths(),
                ),
    {
        proof {
            use_type_invariant(self);
        }
        let root = self.root;
        let mut cnt: Vec<Option<usize>> = Vec::new();
        let mut i: usize = 0;
        while i <= root
            invariant
                i <= root + 1,
                root < self.vertices.len(),
                arena_wf(self.vertices@),
                cnt.len() == i,
                forall|k: int|
                    0 <= k < i ==> cnt[k] == fitting(tree_at(self.vertices@, k).count_paths()),
            decreases root + 1 - i,
        {
            let value = match self.vertices[i] {
                Vertex::Bool(b) => Some(if b { 1usize } else { 0usize }),
                Vertex::Var { low, high, .. } => match (cnt[low], cnt[high]) {
                    (Some(a), Some(b)) => a.checked_add(b),
                    _ => None,
                },
            };
            cnt.push(value);
            i += 1;
        }
        cnt
    }
}

/// The node below the vertex with handle `root` of the arena `vertices`: a
/// copy of the arena up to that vertex.
pub(crate) fn node_of(vertices: &Vec<Vertex>, root: usize) -> (r: Node)
    requires
        arena_wf(vertices@),
        root < vertices.len(),
    ensures
        r@ == tree_at(vertices@, root as int),
        r.arena() == vertices@.take(root + 1),
        r.root_handle() == root,
        r.node_count() == count_reached(vertices@, root as int, root + 1),
{
    let copy = copy_prefix(vertices, root + 1);
    proof {
        reveal(Node::node_count);
        lemma_tree_at_agree(vertices@, copy@, root as int);
        assert forall|k: int| 0 <= k < root + 1 implies reaches(copy@, root as int, k) == reaches(
            vertices@,
            root as int,
            k,
        ) by {
            lemma_reach_agree(copy@, vertices@, root as int, k);
        }
        lemma_count_agree(copy@, root as int, vertices@, root as int, root + 1);
    }
    Node { vertices: copy, root }
}

/// An arena in which diagrams are built, vertex by vertex. A vertex is
/// known by its handle, its position in the arena; a vertex that is handed
/// to several parents is one vertex, and two vertices that were made
/// separately are two, whatever they hold.
#[derive(Debug)]
pub struct Arena {
    vertices: Vec<Vertex>,
}

impl View for Arena {
    type V = Seq<Vertex>;

    closed spec fn view(&self) -> Seq<Vertex> {
        self.vertices@
    }
}

impl Arena {
    /// Every decision vertex points to earlier vertices.
    pub closed spec fn wf(self) -> bool {
        arena_wf(self.vertices@)
    }

    /// In a well-formed arena every decision vertex points to earlier
    /// vertices.
    pub proof fn lemma_well_formed(self)
        requires
            self.wf(),
        ensures
            arena_wf(self@),
    {
    }

    /// An arena without vertices.
    pub fn new() -> (r: Arena)
        ensures
            r.wf(),
            r@ == Seq::<Vertex>::empty(),
    {
        Arena { vertices: Vec::new() }
    }

    /// The number of vertices.
    pub fn len(&self) -> (r: usize)
        ensures
            r == self@.len(),
    {
        self.vertices.len()
    }

    /// Adds a terminal vertex and gives its handle.
    pub fn new_constant(&mut self, b: bool) -> (h: usize)
        requires
            old(self).wf(),
        ensures
            final(self).wf(),
            final(self)@ == old(self)@.push(Vertex::Bool(b)),
            h == old(self)@.len(),
    {
        let h = self.vertices.len();
        self.vertices.push(Vertex::Bool(b));
        h
    }

    /// Adds a decision vertex on `var_index` above the vertices with the
    /// handles `low` and `high`, and gives its handle.
    pub fn new_var(&mut self, var_index: usize, low: usize, high: usize) -> (h: usize)
        requires
            old(self).wf(),
            low < old(self)@.len(),
            high < old(self)@.len(),
        ensures
            final(self).wf(),
            final(self)@ == old(self)@.push(Vertex::Var { var_index, low, high }),
            h == old(self)@.len(),
    {
        let h = self.vertices.len();
        self.vertices.push(Vertex::Var { var_index, low, high });
        h
    }

    /// The node below the vertex with handle `root`: a vertex that several
    /// parents share is one vertex of it.
    pub fn node(&self, root: usize) -> (r: Node)
        requires
            self.wf(),
            root < self@.len(),
        ensures
            r@ == tree_at(self@, root as int),
            r.arena() == self@.take(root + 1),
            r.root_handle() == root,
            r.node_count() == count_reached(self@, root as int, root + 1),
    {
        node_of(&self.vertices, root)
    }
}

impl DecisionDiagram for Node {
    open spec fn graph(&self) -> Node {
        *self
    }

    fn root(&self) -> (r: usize) {
        self.root
    }

    fn vertex(&self, handle: usize) -> (r: Option<Vertex>) {
        if handle < self.vertices.len() {
            Some(self.vertices[handle])
        } else {
            None
        }
    }

    /// The handles of all vertices on paths from the root, the root included,
    /// each once, in increasing order.
    fn all_nodes(&self) -> (r: Vec<usize>) {
        let m = self.marks();
        let n = self.vertices.len();
        let mut r: Vec<usize> = Vec::new();
        let mut k: usize = 0;
        while k < n
            invariant
                k <= n,
                n == self.vertices.len(),
                m.len() == n,
                forall|j: int| 0 <= j < n ==> (#[trigger] m[j] <==> self.reaches(j)),
                forall|h: usize| r@.contains(h) <==> (h < k && self.reaches(h as int)),
                forall|i: int| 0 <= i < r.len() ==> r[i] < k,
                forall|i: int, j: int| 0 <= i < j < r.len() ==> r[i] < r[j],
                r.len() == count_reached(self.vertices@, self.root as int, k as int),
            decreases n - k,
        {
            if m[k] {
                let ghost before = r@;
                r.push(k);
                assert forall|h: usize| r@.contains(h) <==> (h < k + 1 && self.reaches(
                    h as int,
                )) by {
                    if before.contains(h) {
                        let w = choose|w: int| 0 <= w < before.len() && before[w] == h;
                        assert(r[w] == h);
                    }
                    if h == k {
                        assert(r[r.len() - 1] == h);
                    }
                }
            }
            assert(count_reached(self.vertices@, self.root as int, k + 1) == count_reached(
                self.vertices@,
                self.root as int,
                k as int,
            ) + if reaches(self.vertices@, self.root as int, k as int) {
                1nat
            } else {
                0nat
            });
            k += 1;
        }
        proof {
            reveal(Node::node_count);
            assert forall|h: usize| r@.contains(h) <==> self.reaches(h as int) by {
                if self.reaches(h as int) {
                    lemma_reach_bound(self.vertices@, self.root as int, h as int);
                }
            }
        }
        r
    }

    /// The number of distinct vertices on paths from the root, the root included.
    fn len(&self) -> (r: usize) {
        self.all_nodes().len()
    }

    fn write_as_gv(&self, sink: &mut String) {
        write_graph(self, sink)
    }

    fn satisfy_one(&self) -> (r: bool) {
        proof {
            use_type_invariant(self);
        }
        let root = self.root;
        let mut sat: Vec<bool> = Vec::new();
        let mut i: usize = 0;
        while i <= root
            invariant
                i <= root + 1,
                root < self.vertices.len(),
                arena_wf(self.vertices@),
                sat.len() == i,
                forall|k: int| 0 <= k < i ==> sat[k] == tree_at(self.vertices@, k).satisfiable(),
            decreases root + 1 - i,
        {
            let value = match self.vertices[i] {
                Vertex::Bool(b) => b,
                Vertex::Var { low, high, .. } => sat[low] || sat[high],
            };
            sat.push(value);
            i += 1;
        }
        sat[root]
    }

    /// The number of paths from the root to true.
    fn checked_satisfy_all(&self) -> (r: Option<usize>) {
        let cnt = self.path_counts();
        cnt[self.root]
    }

    fn satisfy_all(&self) -> (r: usize) {
        let cnt = self.path_counts();
        match cnt[self.root] {
            Some(c) => c,
            None => 0,
        }
    }
}

/// A count as a machine integer, where it fits.
pub open spec fn fitting(c: nat) -> Option<usize> {
    if c <= usize::MAX {
        Some(c as usize)
    } else {
        None
    }
}

impl Clone for Node {
    fn clone(&self) -> (r: Self)
        ensures
            r@ == self@,
            r.arena() == self.arena(),
            r.root_handle() == self.root_handle(),
            r.node_count() == self.node_count(),
    {
        proof {
            use_type_invariant(self);
        }
        let vertices = copy_prefix(&self.vertices, self.vertices.len());
        assert(vertices@ =~= self.vertices@);
        reveal(Node::node_count);
        Node { vertices, root: self.root }
    }
}

impl Default for Node {
    fn default() -> (r: Self)
        ensures
            r@ == Tree::Leaf(false),
    {
        Node::terminal(false)
    }
}

} // verus!
