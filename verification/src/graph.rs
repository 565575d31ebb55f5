//! The dependency graph of a package directory, and the views analyses run on.

use vstd::prelude::*;
use crate::package::{Package, Specifier};
use crate::resolve::{lemma_satisfiers, satisfiers};
use crate::table::NameTable;

verus! {

/// The kind of a dependency.
#[derive(Clone, Copy, PartialEq, Eq, Structural, Debug)]
pub enum DependencyEdge {
    /// The dependent cannot do without the dependency.
    Required,
    /// The dependent can use the dependency, and can do without.
    Optional,
}

/// A directed edge from a dependent package to a package it depends on. Both
/// ends are node indices.
#[derive(Clone, Copy, PartialEq, Eq, Structural, Debug)]
pub struct Edge {
    pub source: usize,
    pub target: usize,
    pub kind: DependencyEdge,
}

/// A graph as the analyses see it: the packages its node indices stand for,
/// which of the nodes are there, and the edge in each slot, if the slot shows
/// one.
pub struct GraphModel {
    /// The package each node index stands for.
    pub packages: Seq<Package>,
    /// For each node index, whether the node is in the graph.
    pub present: Seq<bool>,
    /// For each edge slot, the edge it shows, if any.
    pub slots: Seq<Option<Edge>>,
}

impl GraphModel {
    /// Every node index has a package and a mark, the indices fit the
    /// machine, and an edge that is shown joins two nodes that are there.
    pub open spec fn well_formed(self) -> bool {
        &&& self.present.len() == self.packages.len()
        &&& self.packages.len() <= usize::MAX
        &&& self.slots.len() <= usize::MAX
        &&& forall|slot: int|
            0 <= slot < self.slots.len() ==> (#[trigger] self.slots[slot] matches Some(edge)
                ==> self.has_node(edge.source as int) && self.has_node(edge.target as int))
    }

    /// The node is in the graph.
    pub open spec fn has_node(self, node: int) -> bool {
        0 <= node < self.present.len() && self.present[node]
    }

    /// The slot shows an edge from `dependent` to `dependency`.
    pub open spec fn joins(self, slot: int, dependent: int, dependency: int) -> bool {
        &&& 0 <= slot < self.slots.len()
        &&& self.slots[slot] matches Some(edge)
        &&& edge.source == dependent
        &&& edge.target == dependency
    }

    /// The graph has an edge from `dependent` to `dependency`.
    pub open spec fn depends_on(self, dependent: int, dependency: int) -> bool {
        exists|slot: int| #[trigger] self.joins(slot, dependent, dependency)
    }
}

/// What the analyses need of a graph: its nodes, which stand for packages,
/// and its edges, some of which a view may hide.
///
/// Nodes are the indices below `node_bound`; a view may leave some of them
/// out. Edges sit in slots below `edge_bound`; a view shows a slot or hides it.
pub trait DependencyGraph {
    /// The value is well formed. Every operation asks for it.
    spec fn valid(&self) -> bool;

    /// The graph that this value stands for.
    spec fn model(&self) -> GraphModel;

    /// A valid value stands for a well-formed graph.
    proof fn lemma_well_formed(&self)
        requires
            self.valid(),
        ensures
            self.model().well_formed(),
    ;

    /// One more than the largest node index.
    fn node_bound(&self) -> (bound: usize)
        requires
            self.valid(),
        ensures
            bound == self.model().packages.len(),
    ;

    /// Whether the node is in the graph.
    fn contains_node(&self, node: usize) -> (present: bool)
        requires
            self.valid(),
            node < self.model().packages.len(),
        ensures
            present == self.model().present[node as int],
    ;

    /// The package the node stands for.
    fn package(&self, node: usize) -> (package: &Package)
        requires
            self.valid(),
            node < self.model().packages.len(),
        ensures
            *package == self.model().packages[node as int],
    ;

    /// The number of edge slots.
    fn edge_bound(&self) -> (bound: usize)
        requires
            self.valid(),
        ensures
            bound == self.model().slots.len(),
    ;

    /// The edge in a slot, unless the view hides it.
    fn edge(&self, slot: usize) -> (edge: Option<Edge>)
        requires
            self.valid(),
            slot < self.model().slots.len(),
        ensures
            edge == self.model().slots[slot as int],
    ;
}

/// The edges one specifier gives rise to: one from `source` to each package
/// that satisfies it, in ascending order of the targets.
pub open spec fn specifier_edges(
    source: usize,
    specifier: &Specifier,
    kind: DependencyEdge,
    packages: Seq<Package>,
) -> Seq<Edge> {
    satisfiers(specifier, packages, packages.len()).map_values(
        |target: usize| (Edge { source, target, kind }),
    )
}

/// The edges of the first `count` of the given specifiers, in their order.
pub open spec fn specifiers_edges(
    source: usize,
    specifiers: Seq<Specifier>,
    kind: DependencyEdge,
    packages: Seq<Package>,
    count: nat,
) -> Seq<Edge>
    decreases count,
{
    if count == 0 {
        Seq::empty()
    } else {
        specifiers_edges(source, specifiers, kind, packages, (count - 1) as nat) + specifier_edges(
            source,
            &specifiers[count - 1],
            kind,
            packages,
        )
    }
}

/// The edges that leave one package: those of its required dependencies, then
/// those of its optional ones.
pub open spec fn package_edges(source: usize, packages: Seq<Package>) -> Seq<Edge> {
    specifiers_edges(
        source,
        packages[source as int].depends@,
        DependencyEdge::Required,
        packages,
        packages[source as int].depends@.len(),
    ) + specifiers_edges(
        source,
        packages[source as int].optdepends@,
        DependencyEdge::Optional,
        packages,
        packages[source as int].optdepends@.len(),
    )
}

/// The edges that leave the first `count` packages, package by package.
pub open spec fn directory_edges(packages: Seq<Package>, count: nat) -> Seq<Edge>
    decreases count,
{
    if count == 0 {
        Seq::empty()
    } else {
        directory_edges(packages, (count - 1) as nat) + package_edges(
            (count - 1) as usize,
            packages,
        )
    }
}

/// The graph of a package directory: a node for each of the packages, all of
/// them there, and the edges their dependencies resolve to, all of them shown.
pub open spec fn directory_model(packages: Seq<Package>) -> GraphModel {
    GraphModel {
        packages,
        present: Seq::new(packages.len(), |node: int| true),
        slots: directory_edges(packages, packages.len()).map_values(|edge: Edge| Some(edge)),
    }
}

/// The graph without its optional edges: every node stays, and a slot shows
/// its edge only if that is a required one.
pub open spec fn required_only(graph: GraphModel) -> GraphModel {
    GraphModel {
        packages: graph.packages,
        present: graph.present,
        slots: graph.slots.map_values(
            |shown: Option<Edge>|
                match shown {
                    Some(edge) => if edge.kind == DependencyEdge::Required {
                        Some(edge)
                    } else {
                        None
                    },
                    None => None,
                },
        ),
    }
}

/// The dependency graph of a package directory: a node for each installed
/// package and an edge for each resolved dependency.
pub struct PackageGraph {
    packages: Vec<Package>,
    edges: Vec<Edge>,
}

impl DependencyGraph for PackageGraph {
    closed spec fn valid(&self) -> bool {
        forall|slot: int|
            0 <= slot < self.edges@.len() ==> (#[trigger] self.edges@[slot]).source
                < self.packages@.len() && self.edges@[slot].target < self.packages@.len()
    }

    closed spec fn model(&self) -> GraphModel {
        GraphModel {
            packages: self.packages@,
            present: Seq::new(self.packages@.len(), |node: int| true),
            slots: self.edges@.map_values(|edge: Edge| Some(edge)),
        }
    }

    proof fn lemma_well_formed(&self) {
        assert(self.packages@.len() == self.packages.len());
        assert(self.edges@.len() == self.edges.len());
    }

    fn node_bound(&self) -> (bound: usize) {
        self.packages.len()
    }

    fn contains_node(&self, node: usize) -> (present: bool) {
        true
    }

    fn package(&self, node: usize) -> (package: &Package) {
        &self.packages[node]
    }

    fn edge_bound(&self) -> (bound: usize) {
        self.edges.len()
    }

    fn edge(&self, slot: usize) -> (edge: Option<Edge>) {
        Some(self.edges[slot])
    }
}

/// Appends the edges of one specifier of the package at `source`.
fn push_specifier_edges(
    edges: &mut Vec<Edge>,
    source: usize,
    specifier: &Specifier,
    kind: DependencyEdge,
    packages: &Vec<Package>,
    table: &NameTable,
)
    requires
        table.describes(packages@),
    ensures
        final(edges)@ == old(edges)@ + specifier_edges(source, specifier, kind, packages@),
        forall|k: int|
            old(edges)@.len() <= k < final(edges)@.len() ==> (#[trigger] final(edges)@[k]).target
                < packages@.len() && final(edges)@[k].source == source,
{
    let targets = table.resolve(specifier, packages);
    proof {
        assert(packages@.len() == packages.len());
        lemma_satisfiers(specifier, packages@, packages@.len());
    }
    let mut k: usize = 0;
    while k < targets.len()
        invariant
            k <= targets.len(),
            targets@ == satisfiers(specifier, packages@, packages@.len()),
            forall|j: int| 0 <= j < targets@.len() ==> (#[trigger] targets@[j]) < packages@.len(),
            edges@ == old(edges)@ + specifier_edges(source, specifier, kind, packages@).take(
                k as int,
            ),
            forall|j: int|
                old(edges)@.len() <= j < edges@.len() ==> (#[trigger] edges@[j]).target
                    < packages@.len() && edges@[j].source == source,
        decreases targets.len() - k,
    {
        let ghost all = specifier_edges(source, specifier, kind, packages@);
        edges.push(Edge { source, target: targets[k], kind });
        proof {
            assert(all.take(k + 1) == all.take(k as int).push(all[k as int]));
            assert(edges@ == old(edges)@ + all.take(k + 1));
        }
        k += 1;
    }
    proof {
        let all = specifier_edges(source, specifier, kind, packages@);
        assert(all.take(k as int) == all);
    }
}

/// Appends the edges of a list of specifiers of the package at `source`.
fn push_specifiers_edges(
    edges: &mut Vec<Edge>,
    source: usize,
    specifiers: &Vec<Specifier>,
    kind: DependencyEdge,
    packages: &Vec<Package>,
    table: &NameTable,
)
    requires
        table.describes(packages@),
    ensures
        final(edges)@ == old(edges)@ + specifiers_edges(
            source,
            specifiers@,
            kind,
            packages@,
            specifiers@.len(),
        ),
        forall|k: int|
            old(edges)@.len() <= k < final(edges)@.len() ==> (#[trigger] final(edges)@[k]).target
                < packages@.len() && final(edges)@[k].source == source,
{
    let mut j: usize = 0;
    while j < specifiers.len()
        invariant
            table.describes(packages@),
            j <= specifiers.len(),
            edges@ == old(edges)@ + specifiers_edges(
                source,
                specifiers@,
                kind,
                packages@,
                j as nat,
            ),
            forall|k: int|
                old(edges)@.len() <= k < edges@.len() ==> (#[trigger] edges@[k]).target
                    < packages@.len() && edges@[k].source == source,
        decreases specifiers.len() - j,
    {
        let ghost before = edges@;
        push_specifier_edges(edges, source, &specifiers[j], kind, packages, table);
        proof {
            let done = specifiers_edges(source, specifiers@, kind, packages@, j as nat);
            let more = specifier_edges(source, &specifiers@[j as int], kind, packages@);
            assert(edges@ == before + more);
            assert((old(edges)@ + done) + more == old(edges)@ + (done + more));
        }
        j += 1;
    }
}

/// Builds the dependency graph of the installed packages.
///
/// Every package becomes a node, whether or not anything joins it. Every
/// required dependency gives a `Required` edge to each package that satisfies
/// it, every optional one an `Optional` edge; a dependency that nothing
/// installed satisfies gives none. The graph is a function of the packages
/// handed in: node `i` stands for the `i`-th of them, and the edges are
/// `directory_edges` of them. The names are put into a lookup table once,
/// and each dependency is resolved through it.
pub fn build_graph(packages: Vec<Package>) -> (graph: PackageGraph)
    ensures
        graph.valid(),
        graph.model() == directory_model(packages@),
{
    let table = NameTable::new(&packages);
    let mut edges: Vec<Edge> = Vec::new();
    let mut i: usize = 0;
    while i < packages.len()
        invariant
            table.describes(packages@),
            i <= packages.len(),
            edges@ == directory_edges(packages@, i as nat),
            forall|k: int|
                0 <= k < edges@.len() ==> (#[trigger] edges@[k]).target < packages@.len()
                    && edges@[k].source < packages@.len(),
        decreases packages.len() - i,
    {
        let ghost before = edges@;
        push_specifiers_edges(
            &mut edges,
            i,
            &packages[i].depends,
            DependencyEdge::Required,
            &packages,
            &table,
        );
        let ghost between = edges@;
        push_specifiers_edges(
            &mut edges,
            i,
            &packages[i].optdepends,
            DependencyEdge::Optional,
            &packages,
            &table,
        );
        proof {
            let required = specifiers_edges(
                i,
                packages@[i as int].depends@,
                DependencyEdge::Required,
                packages@,
                packages@[i as int].depends@.len(),
            );
            let optional = specifiers_edges(
                i,
                packages@[i as int].optdepends@,
                DependencyEdge::Optional,
                packages@,
                packages@[i as int].optdepends@.len(),
            );
            assert(between == before + required);
            assert(edges@ == between + optional);
            assert((before + required) + optional == before + (required + optional));
        }
        i += 1;
    }
    PackageGraph { packages, edges }
}

/// A view of a graph that hides its optional edges and keeps every node. It
/// borrows the graph and copies nothing.
pub struct FilteredView<'a, G: DependencyGraph> {
    graph: &'a G,
}

impl<'a, G: DependencyGraph> FilteredView<'a, G> {
    /// The graph this view looks at.
    pub closed spec fn inner(&self) -> &'a G {
        self.graph
    }
}

impl<'a, G: DependencyGraph> DependencyGraph for FilteredView<'a, G> {
    open spec fn valid(&self) -> bool {
        self.inner().valid()
    }

    open spec fn model(&self) -> GraphModel {
        required_only(self.inner().model())
    }

    proof fn lemma_well_formed(&self) {
        self.inner().lemma_well_formed();
    }

    fn node_bound(&self) -> (bound: usize) {
        self.graph.node_bound()
    }

    fn contains_node(&self, node: usize) -> (present: bool) {
        self.graph.contains_node(node)
    }

    fn package(&self, node: usize) -> (package: &Package) {
        self.graph.package(node)
    }

    fn edge_bound(&self) -> (bound: usize) {
        self.graph.edge_bound()
    }

    fn edge(&self, slot: usize) -> (edge: Option<Edge>) {
        match self.graph.edge(slot) {
            Some(edge) => match edge.kind {
                DependencyEdge::Required => Some(edge),
                DependencyEdge::Optional => None,
            },
            None => None,
        }
    }
}

/// The view of `graph` that shows only its required edges.
pub fn filtered<'a, G: DependencyGraph>(graph: &'a G) -> (view: FilteredView<'a, G>)
    ensures
        view.inner() == graph,
        view.valid() == graph.valid(),
        view.model() == required_only(graph.model()),
{
    FilteredView { graph }
}

} // verus!
