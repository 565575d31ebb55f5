//! The graph of the `petgraph` crate that a view is drawn into, and its
//! rendering in the dot language of Graphviz.
//!
//! Nothing here is proved: each contract says what the source of `petgraph`
//! shows of the function that the item calls.

use petgraph::dot::{Config, Dot, RankDir};
use petgraph::graph::{EdgeReference, NodeIndex};
use vstd::prelude::*;

verus! {

/// The marker type `petgraph::Directed`.
#[verifier::external_type_specification]
#[verifier::external_body]
pub struct ExDirected(petgraph::Directed);

/// The type `petgraph::graph::Graph`: nodes and edges in two vectors, each
/// with a weight.
#[verifier::external_type_specification]
#[verifier::external_body]
#[verifier::reject_recursive_types(N)]
#[verifier::reject_recursive_types(E)]
#[verifier::reject_recursive_types(Ty)]
#[verifier::reject_recursive_types(Ix)]
pub struct ExGraph<N, E, Ty, Ix>(petgraph::graph::Graph<N, E, Ty, Ix>);

/// The weights of the nodes of a `Graph`, in the order of their indices.
pub uninterp spec fn node_weights(
    graph: petgraph::graph::Graph<String, String, petgraph::Directed, usize>,
) -> Seq<Seq<char>>;

/// The edges of a `Graph`, in the order of their indices: source, target and weight.
pub uninterp spec fn edge_list(
    graph: petgraph::graph::Graph<String, String, petgraph::Directed, usize>,
) -> Seq<(int, int, Seq<char>)>;

/// `Graph::with_capacity` with no capacity asked for: a graph without nodes
/// and without edges.
#[verifier::external_body]
pub(crate) fn empty_drawing() -> (graph: petgraph::graph::Graph<
    String,
    String,
    petgraph::Directed,
    usize,
>)
    ensures
        node_weights(graph) == Seq::<Seq<char>>::empty(),
        edge_list(graph) == Seq::<(int, int, Seq<char>)>::empty(),
{
    petgraph::graph::Graph::with_capacity(0, 0)
}

/// `Graph::add_node`: the node is appended with its weight, and its index,
/// the number of nodes before the call, is returned. The edges stay. With
/// `usize` indices the graph has no limit at which the call would panic.
#[verifier::external_body]
pub(crate) fn add_node(
    graph: &mut petgraph::graph::Graph<String, String, petgraph::Directed, usize>,
    weight: String,
) -> (index: usize)
    ensures
        node_weights(*final(graph)) == node_weights(*old(graph)).push(weight@),
        edge_list(*final(graph)) == edge_list(*old(graph)),
        index == node_weights(*old(graph)).len(),
{
    graph.add_node(weight).index()
}

/// `Graph::add_edge`: the edge is appended with its ends and its weight; an
/// edge between the same nodes that is there already stays. The nodes stay.
/// The call panics where an end is no node of the graph, which the `requires`
/// leaves out.
#[verifier::external_body]
pub(crate) fn add_edge(
    graph: &mut petgraph::graph::Graph<String, String, petgraph::Directed, usize>,
    source: usize,
    target: usize,
    weight: String,
)
    requires
        source < node_weights(*old(graph)).len(),
        target < node_weights(*old(graph)).len(),
    ensures
        node_weights(*final(graph)) == node_weights(*old(graph)),
        edge_list(*final(graph)) == edge_list(*old(graph)).push(
            (source as int, target as int, weight@),
        ),
{
    graph.add_edge(NodeIndex::new(source), NodeIndex::new(target), weight);
}

/// The decimal digit of a number below ten.
pub open spec fn digit(value: nat) -> char {
    if value == 0 {
        '0'
    } else if value == 1 {
        '1'
    } else if value == 2 {
        '2'
    } else if value == 3 {
        '3'
    } else if value == 4 {
        '4'
    } else if value == 5 {
        '5'
    } else if value == 6 {
        '6'
    } else if value == 7 {
        '7'
    } else if value == 8 {
        '8'
    } else {
        '9'
    }
}

/// A number in decimal digits, without leading zeros.
pub open spec fn decimal(value: nat) -> Seq<char>
    decreases value,
{
    if value < 10 {
        seq![digit(value)]
    } else {
        decimal(value / 10).push(digit(value % 10))
    }
}

/// The line of a node: its index, and its attributes in square brackets.
pub open spec fn node_line(index: nat, attributes: Seq<char>) -> Seq<char> {
    "    "@ + decimal(index) + " [ "@ + attributes + "]\n"@
}

/// The line of an edge: the indices of its ends with an arrow between them,
/// and its attributes in square brackets.
pub open spec fn edge_line(edge: (int, int, Seq<char>)) -> Seq<char> {
    "    "@ + decimal(edge.0 as nat) + " -> "@ + decimal(edge.1 as nat) + " [ "@ + edge.2
        + "]\n"@
}

/// The lines of the first `count` nodes.
pub open spec fn node_lines(nodes: Seq<Seq<char>>, count: nat) -> Seq<char>
    decreases count,
{
    if count == 0 {
        Seq::empty()
    } else {
        node_lines(nodes, (count - 1) as nat) + node_line((count - 1) as nat, nodes[count - 1])
    }
}

/// The lines of the first `count` edges.
pub open spec fn edge_lines(edges: Seq<(int, int, Seq<char>)>, count: nat) -> Seq<char>
    decreases count,
{
    if count == 0 {
        Seq::empty()
    } else {
        edge_lines(edges, (count - 1) as nat) + edge_line(edges[count - 1])
    }
}

/// A directed graph in the dot language, laid out from top to bottom: a line
/// for each node, then a line for each edge, each with its attributes.
pub open spec fn dot_document(nodes: Seq<Seq<char>>, edges: Seq<(int, int, Seq<char>)>) -> Seq<
    char,
> {
    "digraph {\n"@ + "    rankdir=\"TB\"\n"@ + node_lines(nodes, nodes.len()) + edge_lines(
        edges,
        edges.len(),
    ) + "}\n"@
}

/// `Dot::with_attr_getters` and its `Display`, with the labels that
/// `petgraph` would make of the weights switched off, the rank direction set
/// from top to bottom, and each weight handed out as the attributes of its
/// node or edge. The text is `dot_document` of the weights and the edges.
#[verifier::external_body]
pub(crate) fn render(
    graph: &petgraph::graph::Graph<String, String, petgraph::Directed, usize>,
) -> (text: String)
    ensures
        text@ == dot_document(node_weights(*graph), edge_list(*graph)),
{
    let options = [Config::EdgeNoLabel, Config::NodeNoLabel, Config::RankDir(RankDir::TB)];
    let of_edge = |_, edge: EdgeReference<'_, String, usize>| edge.weight().clone();
    let of_node = |_, node: (NodeIndex<usize>, &String)| node.1.clone();
    format!("{}", Dot::with_attr_getters(graph, &options, &of_edge, &of_node))
}

} // verus!
