//! Packages and graphs as text: a package in one line, a graph in the dot
//! language.

use vstd::prelude::*;
use vstd::string::StringExecFns;
use crate::ansi;
use crate::drawing;
use crate::drawing::{dot_document, edge_list, node_weights};
use crate::graph::{DependencyEdge, DependencyGraph, GraphModel};
use crate::package::Package;

verus! {

/// A package to be shown in one line: its name, and its version if asked for.
#[derive(Debug, Clone)]
pub struct DisplayPackageAnsi<P> {
    package: P,
    with_version: bool,
}

/// The line of a package: the name alone, or the name in bold, a space and
/// the version in bold green, with the styling switched off at the end.
pub open spec fn package_line(name: Seq<char>, version: Seq<char>, with_version: bool) -> Seq<
    char,
> {
    if with_version {
        "\x1b[1m"@ + name + " "@ + "\x1b[1m\x1b[32m"@ + version + "\x1b[0m"@
    } else {
        name
    }
}

impl<P> DisplayPackageAnsi<P> {
    /// The package this shows.
    pub closed spec fn shown_package(&self) -> P {
        self.package
    }

    /// Whether the version is shown.
    pub closed spec fn shows_version(&self) -> bool {
        self.with_version
    }

    /// Shows the package by its name alone.
    pub fn new(package: P) -> (display: Self)
        ensures
            display.shown_package() == package,
            !display.shows_version(),
    {
        Self { package, with_version: false }
    }

    /// Sets whether the version is shown, and keeps the package.
    pub fn with_version(self, with_version: bool) -> (display: Self)
        ensures
            display.shown_package() == self.shown_package(),
            display.shows_version() == with_version,
    {
        let mut display = self;
        display.with_version = with_version;
        display
    }
}

impl<'a> DisplayPackageAnsi<&'a Package> {
    /// The line that shows the package.
    pub fn render(&self) -> (line: String)
        ensures
            line@ == package_line(
                self.shown_package().name@,
                self.shown_package().version@,
                self.shows_version(),
            ),
    {
        if self.with_version {
            let mut line = ansi::bold();
            line.append(self.package.name.as_str());
            line.append(" ");
            line.append(ansi::bold_green().as_str());
            line.append(self.package.version.as_str());
            line.append(ansi::reset().as_str());
            line
        } else {
            self.package.name.clone()
        }
    }
}

/// The attributes of an edge in a drawing: a solid line for a required
/// dependency, a dashed one for an optional.
pub open spec fn edge_attributes_text(kind: DependencyEdge) -> Seq<char> {
    match kind {
        DependencyEdge::Required => "style = solid"@,
        DependencyEdge::Optional => "style = dashed"@,
    }
}

/// The attributes of a node in a drawing: a label in a sans-serif face that
/// holds the name, or the name and the version in green, both in bold.
pub open spec fn node_attributes_text(package: &Package, with_version: bool) -> Seq<char> {
    if with_version {
        "label = <<FONT FACE=\"sans-serif\"><B>"@ + package.name@ + " <FONT COLOR=\"green\">"@
            + package.version@ + "</FONT></B></FONT>>"@
    } else {
        "label = <<FONT FACE=\"sans-serif\">"@ + package.name@ + "</FONT>>"@
    }
}

/// The attributes of an edge of the given kind.
pub fn edge_attributes(kind: DependencyEdge) -> (attributes: String)
    ensures
        attributes@ == edge_attributes_text(kind),
{
    match kind {
        DependencyEdge::Required => String::from_str("style = solid"),
        DependencyEdge::Optional => String::from_str("style = dashed"),
    }
}

/// The attributes of the node of a package.
pub fn node_attributes(package: &Package, with_version: bool) -> (attributes: String)
    ensures
        attributes@ == node_attributes_text(package, with_version),
{
    if with_version {
        let mut attributes = String::from_str("label = <<FONT FACE=\"sans-serif\"><B>");
        attributes.append(package.name.as_str());
        attributes.append(" <FONT COLOR=\"green\">");
        attributes.append(package.version.as_str());
        attributes.append("</FONT></B></FONT>>");
        attributes
    } else {
        let mut attributes = String::from_str("label = <<FONT FACE=\"sans-serif\">");
        attributes.append(package.name.as_str());
        attributes.append("</FONT>>");
        attributes
    }
}

/// The number of nodes of the graph below `node`: the place of `node` among
/// the nodes that are drawn.
pub open spec fn rank(graph: GraphModel, node: int) -> nat
    decreases node,
{
    if node <= 0 {
        0
    } else if graph.present[node - 1] {
        rank(graph, node - 1) + 1
    } else {
        rank(graph, node - 1)
    }
}

/// The attributes of the nodes of the graph below `bound`, in ascending order
/// of the nodes.
pub open spec fn drawn_nodes(graph: GraphModel, with_version: bool, bound: nat) -> Seq<
    Seq<char>,
>
    decreases bound,
{
    if bound == 0 {
        Seq::empty()
    } else if graph.present[bound - 1] {
        drawn_nodes(graph, with_version, (bound - 1) as nat).push(
            node_attributes_text(&graph.packages[bound - 1], with_version),
        )
    } else {
        drawn_nodes(graph, with_version, (bound - 1) as nat)
    }
}

/// The edges that the graph shows in its slots below `bound`, in the order of
/// the slots: the places of their ends among the drawn nodes, and their
/// attributes.
pub open spec fn drawn_edges(graph: GraphModel, bound: nat) -> Seq<(int, int, Seq<char>)>
    decreases bound,
{
    if bound == 0 {
        Seq::empty()
    } else {
        let below = drawn_edges(graph, (bound - 1) as nat);
        match graph.slots[bound - 1] {
            Some(edge) => below.push(
                (
                    rank(graph, edge.source as int) as int,
                    rank(graph, edge.target as int) as int,
                    edge_attributes_text(edge.kind),
                ),
            ),
            None => below,
        }
    }
}

/// The text that `print_package_graph` gives for a graph.
pub open spec fn package_graph_text(graph: GraphModel, with_version: bool) -> Seq<
    char,
> {
    dot_document(
        drawn_nodes(graph, with_version, graph.packages.len()),
        drawn_edges(graph, graph.slots.len()),
    ) + "\n"@
}

/// A node of the graph has a place below the number of nodes drawn.
proof fn lemma_rank_below(graph: GraphModel, node: int, bound: int)
    requires
        0 <= node < bound,
        graph.present[node],
    ensures
        rank(graph, node) < rank(graph, bound),
    decreases bound,
{
    if node < bound - 1 {
        lemma_rank_below(graph, node, bound - 1);
    }
}

/// A graph, or a view of one, as a document in the dot language, for
/// Graphviz to draw.
///
/// The nodes of the graph are numbered in ascending order and labelled with
/// the package's name, and with its version if asked for. The edges follow in
/// the order of their slots, solid where required and dashed where optional.
/// The text ends with an empty line.
pub fn print_package_graph<G: DependencyGraph>(graph: &G, with_version: bool) -> (text: String)
    requires
        graph.valid(),
    ensures
        text@ == package_graph_text(graph.model(), with_version),
{
    let ghost model = graph.model();
    proof {
        graph.lemma_well_formed();
    }
    let nodes = graph.node_bound();
    let slots = graph.edge_bound();
    let mut drawing = drawing::empty_drawing();
    let mut places: Vec<usize> = Vec::new();
    let mut node: usize = 0;
    while node < nodes
        invariant
            graph.valid(),
            model == graph.model(),
            model.well_formed(),
            nodes == model.packages.len(),
            node <= nodes,
            places@.len() == node,
            forall|v: int|
                0 <= v < node && model.present[v] ==> (#[trigger] places@[v]) == rank(model, v),
            node_weights(drawing) == drawn_nodes(model, with_version, node as nat),
            node_weights(drawing).len() == rank(model, node as int),
            edge_list(drawing) == Seq::<(int, int, Seq<char>)>::empty(),
        decreases nodes - node,
    {
        if graph.contains_node(node) {
            let attributes = node_attributes(graph.package(node), with_version);
            let place = drawing::add_node(&mut drawing, attributes);
            places.push(place);
        } else {
            places.push(0);
        }
        node += 1;
    }
    let mut slot: usize = 0;
    while slot < slots
        invariant
            graph.valid(),
            model == graph.model(),
            model.well_formed(),
            nodes == model.packages.len(),
            slots == model.slots.len(),
            slot <= slots,
            places@.len() == nodes,
            forall|v: int|
                0 <= v < nodes && model.present[v] ==> (#[trigger] places@[v]) == rank(model, v),
            node_weights(drawing) == drawn_nodes(model, with_version, nodes as nat),
            node_weights(drawing).len() == rank(model, nodes as int),
            edge_list(drawing) == drawn_edges(model, slot as nat),
        decreases slots - slot,
    {
        match graph.edge(slot) {
            Some(edge) => {
                proof {
                    assert(model.slots[slot as int] == Some(edge));
                    assert(model.has_node(edge.source as int));
                    assert(model.has_node(edge.target as int));
                    lemma_rank_below(model, edge.source as int, nodes as int);
                    lemma_rank_below(model, edge.target as int, nodes as int);
                }
                drawing::add_edge(
                    &mut drawing,
                    places[edge.source],
                    places[edge.target],
                    edge_attributes(edge.kind),
                );
            },
            None => {},
        }
        slot += 1;
    }
    let mut text = drawing::render(&drawing);
    text.append("\n");
    text
}

} // verus!
