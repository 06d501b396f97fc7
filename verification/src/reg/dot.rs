//! Graph descriptions for drawing: a line for each state and one for each
//! edge, in the notation of Graphviz.
use vstd::prelude::*;
use crate::reg::graph::Graph;
use crate::reg::symbol::Symbol;
use crate::reg::text::{debug_str, decimal, push_char, push_decimal, push_text, str_debug_text};

verus! {

/// The numeral of `n` between double quotes.
pub open spec fn quoted_number(n: nat) -> Seq<char> {
    seq!['"'] + decimal(n) + seq!['"']
}

/// The line for a state: its name, and a double border if the state is
/// terminal.
pub open spec fn node_text(name: Seq<char>, terminal: bool) -> Seq<char> {
    name + if terminal {
        "[peripheries=2];"@
    } else {
        ";"@
    }
}

/// The label of an edge: the quoted text of its symbol, or a quoted lambda
/// for an edge without a symbol.
pub open spec fn label_text<T: Symbol>(by: Option<T>) -> Seq<char> {
    match by {
        None => str_debug_text("λ"@),
        Some(b) => str_debug_text(b.debug_text()),
    }
}

/// The line for an edge between the states named `from` and `to`.
pub open spec fn edge_text(from: Seq<char>, to: Seq<char>, label: Seq<char>) -> Seq<char> {
    from + "->"@ + to + "[label="@ + label + "];"@
}

/// The lines for the first `upto` states of `g`.
pub open spec fn nodes_text<T>(g: Graph<T>, upto: nat) -> Seq<char>
    decreases upto,
{
    if upto == 0 {
        Seq::empty()
    } else {
        let last = (upto - 1) as nat;
        nodes_text(g, last) + node_text(quoted_number(last), last == g.tail)
    }
}

/// The lines for the first `upto` edges of `row`, which leave the state
/// `from`.
pub open spec fn row_text<T: Symbol>(from: nat, row: Seq<(Option<T>, int)>, upto: nat) -> Seq<char>
    decreases upto,
{
    if upto == 0 {
        Seq::empty()
    } else {
        let last = (upto - 1) as nat;
        row_text(from, row, last) + edge_text(
            quoted_number(from),
            quoted_number(row[last as int].1 as nat),
            label_text(row[last as int].0),
        )
    }
}

/// The lines for the edges that leave the first `upto` states of `g`.
pub open spec fn edges_text<T: Symbol>(g: Graph<T>, upto: nat) -> Seq<char>
    decreases upto,
{
    if upto == 0 {
        Seq::empty()
    } else {
        let last = (upto - 1) as nat;
        edges_text(g, last) + row_text(last, g.nodes[last as int], g.nodes[last as int].len())
    }
}

/// The description of `g`: the opening, a line for each state in the order
/// of their numbers, a line for each edge in the order of its source and
/// then of its place among the source's edges, and the closing brace.
pub open spec fn graph_dot<T: Symbol>(g: Graph<T>) -> Seq<char> {
    "digraph{edge[arrowhead=normal,arrowtail=dot];"@ + nodes_text(g, g.nodes.len()) + edges_text(
        g,
        g.nodes.len(),
    ) + "}"@
}

/// Appends the numeral of `n` between double quotes.
pub(crate) fn push_quoted_number(out: &mut String, n: usize)
    ensures
        final(out)@ == old(out)@ + quoted_number(n as nat),
{
    push_char(out, '"');
    push_decimal(out, n);
    push_char(out, '"');
    assert(out@ =~= old(out)@ + quoted_number(n as nat));
}

/// Appends what ends the line of a state.
pub(crate) fn push_node_end(out: &mut String, terminal: bool)
    ensures
        final(out)@ == old(out)@ + node_text(Seq::empty(), terminal),
{
    if terminal {
        push_text(out, "[peripheries=2];");
    } else {
        push_text(out, ";");
    }
    assert(out@ =~= old(out)@ + node_text(Seq::empty(), terminal));
}

/// Appends the label of an edge.
pub(crate) fn push_label<T: Symbol>(out: &mut String, by: &Option<T>)
    ensures
        final(out)@ == old(out)@ + label_text(*by),
{
    let text = match by {
        None => debug_str("λ"),
        Some(b) => {
            let inner = b.debug();
            debug_str(inner.as_str())
        },
    };
    push_text(out, text.as_str());
}

/// Appends the line for an edge between two numbered states.
pub(crate) fn push_edge<T: Symbol>(out: &mut String, from: usize, by: &Option<T>, to: usize)
    ensures
        final(out)@ == old(out)@ + edge_text(
            quoted_number(from as nat),
            quoted_number(to as nat),
            label_text(*by),
        ),
{
    push_quoted_number(out, from);
    push_text(out, "->");
    push_quoted_number(out, to);
    push_text(out, "[label=");
    push_label(out, by);
    push_text(out, "];");
    assert(out@ =~= old(out)@ + edge_text(
        quoted_number(from as nat),
        quoted_number(to as nat),
        label_text(*by),
    ));
}

} // verus!
