//! The text of a diagram in the graph description language of Graphviz.
use vstd::prelude::*;
use crate::arena::{arena_wf, reaches};
use crate::node::{Node, Vertex};

verus! {

/// The decimal digit `d`.
pub open spec fn digit(d: nat) -> Seq<char> {
    if d == 0 {
        "0"@
    } else if d == 1 {
        "1"@
    } else if d == 2 {
        "2"@
    } else if d == 3 {
        "3"@
    } else if d == 4 {
        "4"@
    } else if d == 5 {
        "5"@
    } else if d == 6 {
        "6"@
    } else if d == 7 {
        "7"@
    } else if d == 8 {
        "8"@
    } else {
        "9"@
    }
}

/// The decimal numeral of `n`, without leading zeros.
pub open spec fn decimal(n: nat) -> Seq<char>
    decreases n,
{
    if n < 10 {
        digit(n)
    } else {
        decimal(n / 10) + digit(n % 10)
    }
}

/// The number under which a vertex is written: 0 and 1 for the terminals
/// false and true, the handle plus 2 for a decision vertex.
pub open spec fn written_id(arena: Seq<Vertex>, h: int) -> nat {
    match arena[h] {
        Vertex::Bool(b) => if b { 1nat } else { 0nat },
        Vertex::Var { .. } => (h + 2) as nat,
    }
}

/// The lines that open the graph and declare the two terminals.
pub open spec fn opening() -> Seq<char> {
    "digraph regexp {{\n  fontname=\"Helvetica,Arial,sans-serif\"\n  node [fontname=\"Helvetica,Arial,sans-serif\"]\n  edge [fontname=\"Helvetica,Arial,sans-serif\",color=blue]\n"@
        + "  0[style=filled,fillcolor=\"gray80\",label=\"false\",shape=\"box\"];\n"@
        + "  1[style=filled,fillcolor=\"gray95\",label=\"true\",shape=\"box\"];\n"@
}

/// The line that declares the decision vertex `id` with its variable.
pub open spec fn label_line(id: nat, var_index: nat) -> Seq<char> {
    "  "@ + decimal(id) + "[label=\""@ + decimal(var_index) + "\"];\n"@
}

/// The line of the single edge of a vertex whose children coincide.
pub open spec fn single_edge(id: nat, child: nat) -> Seq<char> {
    "  "@ + decimal(id) + " -> "@ + decimal(child) + "[color=black,penwidth=2];\n"@
}

/// The line of the edge to the low child.
pub open spec fn low_edge(id: nat, child: nat) -> Seq<char> {
    "  "@ + decimal(id) + " -> "@ + decimal(child) + "[color=red,style=\"dotted\"];\n"@
}

/// The line of the edge to the high child.
pub open spec fn high_edge(id: nat, child: nat) -> Seq<char> {
    "  "@ + decimal(id) + " -> "@ + decimal(child) + "[color=blue];\n"@
}

/// The declaration of the vertex with handle `h`: a line for a decision
/// vertex that the root reaches, nothing otherwise.
pub open spec fn label_of(arena: Seq<Vertex>, root: int, h: int) -> Seq<char> {
    match arena[h] {
        Vertex::Bool(_) => Seq::<char>::empty(),
        Vertex::Var { var_index, .. } => if reaches(arena, root, h) {
            label_line((h + 2) as nat, var_index as nat)
        } else {
            Seq::<char>::empty()
        },
    }
}

/// The edges of the vertex with handle `h`: one line where its children are
/// written under the same number, two lines where they are not, nothing for
/// a terminal or a vertex that the root does not reach.
pub open spec fn edges_of(arena: Seq<Vertex>, root: int, h: int) -> Seq<char> {
    match arena[h] {
        Vertex::Bool(_) => Seq::<char>::empty(),
        Vertex::Var { low, high, .. } => if reaches(arena, root, h) {
            let j = written_id(arena, low as int);
            let k = written_id(arena, high as int);
            if j == k {
                single_edge((h + 2) as nat, j)
            } else {
                low_edge((h + 2) as nat, j) + high_edge((h + 2) as nat, k)
            }
        } else {
            Seq::<char>::empty()
        },
    }
}

/// The declarations of the vertices with handles below `n`, in the order of
/// the handles.
pub open spec fn labels(arena: Seq<Vertex>, root: int, n: int) -> Seq<char>
    decreases n,
{
    if n <= 0 {
        Seq::<char>::empty()
    } else {
        labels(arena, root, n - 1) + label_of(arena, root, n - 1)
    }
}

/// The edges of the vertices with handles below `n`, in the order of the
/// handles.
pub open spec fn edges(arena: Seq<Vertex>, root: int, n: int) -> Seq<char>
    decreases n,
{
    if n <= 0 {
        Seq::<char>::empty()
    } else {
        edges(arena, root, n - 1) + edges_of(arena, root, n - 1)
    }
}

/// The text of the graph below `root`: the opening lines with the two
/// terminals, a declaration for each decision vertex that the root reaches,
/// its edges, and the closing line.
pub open spec fn graph_text(arena: Seq<Vertex>, root: int) -> Seq<char> {
    opening() + labels(arena, root, arena.len() as int) + edges(arena, root, arena.len() as int)
        + "}}\n"@
}

/// Appends the decimal digit `d`.
fn write_digit(sink: &mut String, d: u8)
    requires
        d < 10,
    ensures
        final(sink)@ == old(sink)@ + digit(d as nat),
{
    if d == 0 {
        sink.append("0");
    } else if d == 1 {
        sink.append("1");
    } else if d == 2 {
        sink.append("2");
    } else if d == 3 {
        sink.append("3");
    } else if d == 4 {
        sink.append("4");
    } else if d == 5 {
        sink.append("5");
    } else if d == 6 {
        sink.append("6");
    } else if d == 7 {
        sink.append("7");
    } else if d == 8 {
        sink.append("8");
    } else {
        sink.append("9");
    }
}

/// Appends the decimal numeral of `n`.
fn write_decimal(sink: &mut String, n: u128)
    ensures
        final(sink)@ == old(sink)@ + decimal(n as nat),
    decreases n,
{
    if n < 10 {
        write_digit(sink, n as u8);
    } else {
        write_decimal(sink, n / 10);
        write_digit(sink, (n % 10) as u8);
    }
}

/// The number under which the vertex with handle `h` is written.
fn id_of(arena: &Vec<Vertex>, h: usize) -> (r: u128)
    requires
        h < arena.len(),
    ensures
        r == written_id(arena@, h as int),
{
    match arena[h] {
        Vertex::Bool(b) => if b { 1 } else { 0 },
        Vertex::Var { .. } => (h as u128) + 2,
    }
}

/// Appends one line made of three texts around two numbers.
fn write_line(sink: &mut String, head: &str, x: u128, mid: &str, y: u128, tail: &str)
    ensures
        final(sink)@ == old(sink)@ + (head@ + decimal(x as nat) + mid@ + decimal(y as nat)
            + tail@),
{
    sink.append(head);
    write_decimal(sink, x);
    sink.append(mid);
    write_decimal(sink, y);
    sink.append(tail);
    assert(sink@ =~= old(sink)@ + (head@ + decimal(x as nat) + mid@ + decimal(y as nat)
        + tail@));
}

/// Appends the text of the graph of `node` to `sink`.
pub fn write_graph(node: &Node, sink: &mut String)
    ensures
        final(sink)@ == old(sink)@ + graph_text(node.arena(), node.root_handle()),
{
    proof {
        use_type_invariant(node);
    }
    let reach = node.marks();
    let n = node.vertices.len();
    let ghost arena = node.vertices@;
    let ghost root = node.root as int;
    sink.append(
        "digraph regexp {{\n  fontname=\"Helvetica,Arial,sans-serif\"\n  node [fontname=\"Helvetica,Arial,sans-serif\"]\n  edge [fontname=\"Helvetica,Arial,sans-serif\",color=blue]\n",
    );
    sink.append("  0[style=filled,fillcolor=\"gray80\",label=\"false\",shape=\"box\"];\n");
    sink.append("  1[style=filled,fillcolor=\"gray95\",label=\"true\",shape=\"box\"];\n");
    let mut h: usize = 0;
    while h < n
        invariant
            h <= n,
            n == node.vertices.len(),
            arena == node.vertices@,
            root == node.root as int,
            reach.len() == n,
            forall|k: int| 0 <= k < n ==> (#[trigger] reach[k] <==> reaches(arena, root, k)),
            sink@ == old(sink)@ + opening() + labels(arena, root, h as int),
        decreases n - h,
    {
        match node.vertices[h] {
            Vertex::Bool(_) => {},
            Vertex::Var { var_index, .. } => {
                if reach[h] {
                    let id = (h as u128) + 2;
                    write_line(sink, "  ", id, "[label=\"", var_index as u128, "\"];\n");
                }
            },
        }
        h += 1;
    }
    let ghost middle = sink@;
    let mut h: usize = 0;
    while h < n
        invariant
            h <= n,
            n == node.vertices.len(),
            arena == node.vertices@,
            root == node.root as int,
            arena_wf(arena),
            reach.len() == n,
            forall|k: int| 0 <= k < n ==> (#[trigger] reach[k] <==> reaches(arena, root, k)),
            sink@ == middle + edges(arena, root, h as int),
        decreases n - h,
    {
        let ghost before = sink@;
        match node.vertices[h] {
            Vertex::Bool(_) => {},
            Vertex::Var { low, high, .. } => {
                if reach[h] {
                    let i = (h as u128) + 2;
                    let j = id_of(&node.vertices, low);
                    let k = id_of(&node.vertices, high);
                    if j == k {
                        write_line(sink, "  ", i, " -> ", j, "[color=black,penwidth=2];\n");
                    } else {
                        write_line(sink, "  ", i, " -> ", j, "[color=red,style=\"dotted\"];\n");
                        write_line(sink, "  ", i, " -> ", k, "[color=blue];\n");
                        assert(sink@ =~= before + (low_edge(i as nat, j as nat) + high_edge(
                            i as nat,
                            k as nat,
                        )));
                    }
                }
            },
        }
        h += 1;
    }
    sink.append("}}\n");
}

} // verus!
