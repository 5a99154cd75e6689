use vstd::prelude::*;
use vstd::string::StringExecFns;

use crate::aig::{AndNode, AIG};
use crate::signal::Signal;

verus! {

/// The decimal digit `d`.
pub open spec fn digit_text(d: nat) -> Seq<char> {
    if d == 0 {
        "0"@
    } else if d == 1 {
        "1"@
    } else if d == 2 {
        "2"@
    } else if d == 3 {
        "3"@
    } else if d == 4 {
        "4"@
    } else if d == 5 {
        "5"@
    } else if d == 6 {
        "6"@
    } else if d == 7 {
        "7"@
    } else if d == 8 {
        "8"@
    } else {
        "9"@
    }
}

/// The decimal text of `n`.
pub open spec fn number_text(n: nat) -> Seq<char>
    decreases n,
{
    if n < 10 {
        digit_text(n)
    } else {
        number_text(n / 10) + digit_text(n % 10)
    }
}

/// The edge style of a signal: dashed where it is inverted.
pub open spec fn style_text(inverted: bool) -> Seq<char> {
    if inverted {
        "dashed"@
    } else {
        "solid"@
    }
}

/// The DOT line of a primary input.
pub open spec fn input_line(x: Signal) -> Seq<char> {
    "  x"@ + number_text(x.index as nat) + " [label=\"x"@ + number_text(x.index as nat)
        + "\", shape=box, style=filled, fillcolor=lightblue];\n"@
}

/// The DOT edge from signal `c` to node `id`.
pub open spec fn edge_line(c: Signal, id: usize) -> Seq<char> {
    "  x"@ + number_text(c.index as nat) + " -> x"@ + number_text(id as nat) + " [style="@
        + style_text(c.inverted) + "];\n"@
}

/// The DOT lines of a gate: the node, then its edges from left and right input.
pub open spec fn node_lines(e: (usize, AndNode)) -> Seq<char> {
    "  x"@ + number_text(e.0 as nat) + " [label=\"x"@ + number_text(e.0 as nat) + "\"];\n"@
        + edge_line(e.1.left_signal, e.0) + edge_line(e.1.right_signal, e.0)
}

/// The DOT lines of output `i`, signal `x`.
pub open spec fn output_lines(i: nat, x: Signal) -> Seq<char> {
    "  f"@ + number_text(i) + " [label=\"f"@ + number_text(i) + " = "@ + (if x.inverted {
        "\u{ac}x"@
    } else {
        "x"@
    }) + number_text(x.index as nat)
        + "\", shape=diamond, style=filled, fillcolor=lightgreen];\n"@ + "  x"@ + number_text(
        x.index as nat,
    ) + " -> f"@ + number_text(i) + " [style="@ + style_text(x.inverted) + "];\n"@
}

/// The lines of the first `n` inputs.
pub open spec fn inputs_text(xs: Seq<Signal>, n: nat) -> Seq<char>
    decreases n,
{
    if n == 0 || n > xs.len() {
        Seq::empty()
    } else {
        inputs_text(xs, (n - 1) as nat) + input_line(xs[n - 1])
    }
}

/// The lines of the first `n` gates.
pub open spec fn nodes_text(s: Seq<(usize, AndNode)>, n: nat) -> Seq<char>
    decreases n,
{
    if n == 0 || n > s.len() {
        Seq::empty()
    } else {
        nodes_text(s, (n - 1) as nat) + node_lines(s[n - 1])
    }
}

/// The lines of the first `n` outputs.
pub open spec fn outputs_text(xs: Seq<Signal>, n: nat) -> Seq<char>
    decreases n,
{
    if n == 0 || n > xs.len() {
        Seq::empty()
    } else {
        outputs_text(xs, (n - 1) as nat) + output_lines((n - 1) as nat, xs[n - 1])
    }
}

/// The whole DOT text of a graph with its inputs and outputs.
pub open spec fn dot_spec(s: Seq<(usize, AndNode)>, inputs: Seq<Signal>, outputs: Seq<Signal>) -> Seq<
    char,
> {
    "digraph AIG {\n"@ + "  rankdir=LR;\n"@ + "  node [shape=circle];\n"@ + inputs_text(
        inputs,
        inputs.len(),
    ) + nodes_text(s, s.len()) + outputs_text(outputs, outputs.len()) + "}\n"@
}

/// The text of the decimal digit `d`.
fn digit_str(d: usize) -> (r: &'static str)
    ensures
        r@ == digit_text(d as nat),
{
    if d == 0 {
        "0"
    } else if d == 1 {
        "1"
    } else if d == 2 {
        "2"
    } else if d == 3 {
        "3"
    } else if d == 4 {
        "4"
    } else if d == 5 {
        "5"
    } else if d == 6 {
        "6"
    } else if d == 7 {
        "7"
    } else if d == 8 {
        "8"
    } else {
        "9"
    }
}

/// Appends the decimal text of `n`.
fn append_number(out: &mut String, n: usize)
    ensures
        final(out)@ == old(out)@ + number_text(n as nat),
    decreases n,
{
    if n >= 10 {
        append_number(out, n / 10);
    }
    out.append(digit_str(n % 10));
    proof {
        if n >= 10 {
            assert(out@ =~= old(out)@ + (number_text((n / 10) as nat) + digit_text(
                (n % 10) as nat,
            )));
        } else {
            assert(out@ =~= old(out)@ + digit_text(n as nat));
        }
    }
}

/// Appends the line of a primary input.
fn append_input_line(out: &mut String, x: Signal)
    ensures
        final(out)@ == old(out)@ + input_line(x),
{
    out.append("  x");
    append_number(out, x.index);
    out.append(" [label=\"x");
    append_number(out, x.index);
    out.append("\", shape=box, style=filled, fillcolor=lightblue];\n");
    proof {
        assert(out@ =~= old(out)@ + input_line(x));
    }
}

/// Appends the edge from `c` to node `id`.
fn append_edge(out: &mut String, c: Signal, id: usize)
    ensures
        final(out)@ == old(out)@ + edge_line(c, id),
{
    out.append("  x");
    append_number(out, c.index);
    out.append(" -> x");
    append_number(out, id);
    out.append(" [style=");
    append_style(out, c.inverted);
    out.append("];\n");
    proof {
        assert(out@ =~= old(out)@ + edge_line(c, id));
    }
}

/// Appends the lines of a gate.
fn append_node_lines(out: &mut String, e: (usize, AndNode))
    ensures
        final(out)@ == old(out)@ + node_lines(e),
{
    let (id, node) = e;
    out.append("  x");
    append_number(out, id);
    out.append(" [label=\"x");
    append_number(out, id);
    out.append("\"];\n");
    append_edge(out, node.left_signal, id);
    append_edge(out, node.right_signal, id);
    proof {
        assert(out@ =~= old(out)@ + node_lines(e));
    }
}

/// Appends the lines of output `i`.
fn append_output_lines(out: &mut String, i: usize, x: Signal)
    ensures
        final(out)@ == old(out)@ + output_lines(i as nat, x),
{
    out.append("  f");
    append_number(out, i);
    out.append(" [label=\"f");
    append_number(out, i);
    out.append(" = ");
    if x.inverted {
        out.append("\u{ac}x");
    } else {
        out.append("x");
    }
    append_number(out, x.index);
    out.append("\", shape=diamond, style=filled, fillcolor=lightgreen];\n");
    out.append("  x");
    append_number(out, x.index);
    out.append(" -> f");
    append_number(out, i);
    out.append(" [style=");
    append_style(out, x.inverted);
    out.append("];\n");
    proof {
        assert(out@ =~= old(out)@ + output_lines(i as nat, x));
    }
}

/// Appends the edge style of a signal.
fn append_style(out: &mut String, inverted: bool)
    ensures
        final(out)@ == old(out)@ + style_text(inverted),
{
    if inverted {
        out.append("dashed");
    } else {
        out.append("solid");
    }
}

/// A graph to render as Graphviz DOT, and the directory its files go to.
pub struct AigVisualizer<'a> {
    pub aig: &'a AIG,
    pub base_path: String,
}

impl<'a> AigVisualizer<'a> {
    pub fn new(aig: &'a AIG, base_path: &String) -> (r: AigVisualizer<'a>)
        ensures
            r.aig == aig,
            r.base_path@ == base_path@,
    {
        AigVisualizer { aig, base_path: base_path.clone() }
    }

    /// The graph as Graphviz DOT text: inputs as boxes, gates as circles with an
    /// edge from each input (dashed where inverted), outputs as diamonds.
    pub fn dot_text(&self, inputs: &Vec<Signal>, outputs: &Vec<Signal>) -> (r: String)
        ensures
            r@ == dot_spec(self.aig.node_map@, inputs@, outputs@),
    {
        let mut out = String::new();
        out.append("digraph AIG {\n");
        out.append("  rankdir=LR;\n");
        out.append("  node [shape=circle];\n");
        let ghost head = "digraph AIG {\n"@ + "  rankdir=LR;\n"@ + "  node [shape=circle];\n"@;
        proof {
            assert(out@ =~= head);
        }
        let mut i: usize = 0;
        while i < inputs.len()
            invariant
                i <= inputs@.len(),
                out@ == head + inputs_text(inputs@, i as nat),
            decreases inputs@.len() - i,
        {
            append_input_line(&mut out, inputs[i]);
            proof {
                assert(out@ =~= head + inputs_text(inputs@, (i + 1) as nat));
            }
            i = i + 1;
        }
        let ghost h2 = out@;
        let nodes = &self.aig.node_map;
        let mut j: usize = 0;
        while j < nodes.len()
            invariant
                j <= nodes@.len(),
                nodes@ == self.aig.node_map@,
                out@ == h2 + nodes_text(nodes@, j as nat),
            decreases nodes@.len() - j,
        {
            append_node_lines(&mut out, nodes[j]);
            proof {
                assert(out@ =~= h2 + nodes_text(nodes@, (j + 1) as nat));
            }
            j = j + 1;
        }
        let ghost h3 = out@;
        let mut k: usize = 0;
        while k < outputs.len()
            invariant
                k <= outputs@.len(),
                out@ == h3 + outputs_text(outputs@, k as nat),
            decreases outputs@.len() - k,
        {
            append_output_lines(&mut out, k, outputs[k]);
            proof {
                assert(out@ =~= h3 + outputs_text(outputs@, (k + 1) as nat));
            }
            k = k + 1;
        }
        out.append("}\n");
        proof {
            assert(out@ =~= dot_spec(self.aig.node_map@, inputs@, outputs@));
        }
        out
    }
}

} // verus!
