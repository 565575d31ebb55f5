//! What holds of the graph and of the two analyses, whatever the packages.

use vstd::prelude::*;
use crate::dependencies::{
    dependents_of, is_dependent, is_orphan, lemma_orphans_below, orphans_of, Subgraph,
};
use crate::graph::{
    directory_edges, directory_model, package_edges, required_only, specifier_edges,
    specifiers_edges, DependencyEdge, DependencyGraph, Edge, GraphModel, PackageGraph,
};
use crate::package::{Package, Specifier};
use crate::reach::{
    depends_through, is_path, lemma_reaches_is_self_or_through, lemma_reaches_transitive, reaches,
};
use crate::resolve::{lemma_satisfiers, satisfiers, satisfies};

verus! {

/// A node that no edge points to is an orphan, and a node that some edge
/// points to is none.
pub proof fn lemma_orphan_has_no_dependent(graph: GraphModel, node: int)
    requires
        graph.has_node(node),
    ensures
        is_orphan(graph, node) <==> !exists|dependent: int| graph.depends_on(dependent, node),
{
}

/// The list of orphans holds exactly the orphans.
pub proof fn lemma_orphans_listed(graph: GraphModel, node: usize)
    requires
        graph.well_formed(),
    ensures
        orphans_of(graph).contains(node) <==> is_orphan(graph, node as int),
{
    lemma_orphans_below(graph, graph.packages.len());
    if orphans_of(graph).contains(node) {
        let k = choose|k: int| 0 <= k < orphans_of(graph).len() && orphans_of(graph)[k] == node;
        assert(orphans_of(graph)[k] < graph.packages.len());
    }
}

/// Without the optional edges a node depends on another exactly if a required
/// edge joins them.
pub proof fn lemma_required_only_joins(graph: GraphModel, slot: int, dependent: int, dependency: int)
    ensures
        required_only(graph).joins(slot, dependent, dependency) <==> graph.joins(
            slot,
            dependent,
            dependency,
        ) && graph.slots[slot]->0.kind == DependencyEdge::Required,
        required_only(graph).packages == graph.packages,
        required_only(graph).present == graph.present,
{
}

/// Hiding the optional edges loses no orphan: an orphan of a graph is an
/// orphan of the graph without its optional edges.
pub proof fn lemma_filter_keeps_orphans(graph: GraphModel, node: int)
    requires
        is_orphan(graph, node),
    ensures
        is_orphan(required_only(graph), node),
{
    let view = required_only(graph);
    assert forall|dependent: int| !view.depends_on(dependent, node) by {
        if view.depends_on(dependent, node) {
            let slot = choose|slot: int| #[trigger] view.joins(slot, dependent, node);
            assert(graph.joins(slot, dependent, node));
            assert(graph.depends_on(dependent, node));
        }
    }
}

/// The orphans listed for a graph are among those listed for the graph
/// without its optional edges.
pub proof fn lemma_filter_lists_more_orphans(graph: GraphModel, node: usize)
    requires
        graph.well_formed(),
        orphans_of(graph).contains(node),
    ensures
        orphans_of(required_only(graph)).contains(node),
{
    lemma_orphans_listed(graph, node);
    lemma_filter_keeps_orphans(graph, node as int);
    lemma_required_only_well_formed(graph);
    lemma_orphans_listed(required_only(graph), node);
}

/// A well-formed graph without its optional edges is well formed.
pub proof fn lemma_required_only_well_formed(graph: GraphModel)
    requires
        graph.well_formed(),
    ensures
        required_only(graph).well_formed(),
{
}

/// The target is among its own dependents.
pub proof fn lemma_target_is_dependent(graph: GraphModel, target: int)
    requires
        0 <= target < graph.packages.len(),
    ensures
        is_dependent(graph, target, target),
        dependents_of(graph, target).has_node(target),
{
}

/// An edge of a well-formed graph joins two of its nodes, and so does a path
/// of one or more edges.
pub proof fn lemma_path_stays_in_graph(graph: GraphModel, from: int, to: int)
    requires
        graph.well_formed(),
        depends_through(graph, from, to),
    ensures
        graph.has_node(from),
        graph.has_node(to),
{
    let path = choose|path: Seq<int>|
        #[trigger] is_path(graph, path) && path.len() >= 2 && path[0] == from && path.last()
            == to;
    assert(graph.depends_on(path[0], path[0int + 1]));
    let first = choose|slot: int| #[trigger] graph.joins(slot, path[0], path[1]);
    assert(graph.slots[first] is Some);
    let before = path.len() - 2;
    assert(graph.depends_on(path[before], path[before + 1]));
    let last = choose|slot: int| #[trigger] graph.joins(slot, path[before], path[before + 1]);
    assert(graph.slots[last] is Some);
}

/// A node other than the target is among the dependents exactly if one or
/// more edges lead from it to the target.
pub proof fn lemma_dependents_are_reaching(graph: GraphModel, target: int, node: int)
    requires
        graph.well_formed(),
        node != target,
    ensures
        dependents_of(graph, target).has_node(node) <==> depends_through(graph, node, target),
{
    if depends_through(graph, node, target) {
        lemma_path_stays_in_graph(graph, node, target);
    }
}

/// The dependents of a node are the nodes from which a path of any length,
/// the empty one too, leads to it.
pub proof fn lemma_dependents_reach(graph: GraphModel, node: int, target: int)
    ensures
        is_dependent(graph, node, target) <==> reaches(graph, node, target),
{
    lemma_reaches_is_self_or_through(graph, node, target);
}

/// Whatever depends on a dependent of the target is a dependent of the target.
pub proof fn lemma_dependents_closed(graph: GraphModel, node: int, via: int, target: int)
    requires
        is_dependent(graph, node, via),
        is_dependent(graph, via, target),
    ensures
        is_dependent(graph, node, target),
{
    lemma_reaches_is_self_or_through(graph, node, via);
    lemma_reaches_is_self_or_through(graph, via, target);
    lemma_reaches_transitive(graph, node, via, target);
    lemma_reaches_is_self_or_through(graph, node, target);
}

/// Two nodes on one cycle have the same dependents.
pub proof fn lemma_cycle_shares_dependents(graph: GraphModel, first: int, second: int, node: int)
    requires
        is_dependent(graph, first, second),
        is_dependent(graph, second, first),
    ensures
        is_dependent(graph, node, first) <==> is_dependent(graph, node, second),
{
    if is_dependent(graph, node, first) {
        lemma_dependents_closed(graph, node, first, second);
    }
    if is_dependent(graph, node, second) {
        lemma_dependents_closed(graph, node, second, first);
    }
}

/// The search finds each dependent once: the order of discovery holds every
/// member, and none twice.
pub proof fn lemma_each_found_once<'a, G: DependencyGraph>(
    graph: &'a G,
    target: usize,
    found: Subgraph<'a, G>,
)
    requires
        found.holds_dependents(graph, target),
    ensures
        found.order().no_duplicates(),
        found.order()[0] == target,
        forall|node: int|
            0 <= node <= usize::MAX ==> (found.order().contains(node as usize)
                <==> is_dependent(graph.model(), node, target as int)),
{
    assert forall|node: int| 0 <= node <= usize::MAX implies (found.order().contains(
        node as usize,
    ) <==> is_dependent(graph.model(), node, target as int)) by {
        if found.order().contains(node as usize) {
            let k = choose|k: int|
                0 <= k < found.order().len() && found.order()[k] == node as usize;
            assert(found.members()[found.order()[k] as int]);
            assert(found.holds(node));
        }
        if is_dependent(graph.model(), node, target as int) {
            assert(found.holds(node));
        }
    }
}

/// Two graphs built of the same packages have the same nodes and the same edges.
pub proof fn lemma_rebuild_is_same(first: PackageGraph, second: PackageGraph, packages: Seq<Package>)
    requires
        first.model() == directory_model(packages),
        second.model() == directory_model(packages),
    ensures
        first.model().packages == second.model().packages,
        first.model().present == second.model().present,
        first.model().slots == second.model().slots,
{
}

/// Every installed package is a node of the graph of the directory, whether
/// or not an edge joins it.
pub proof fn lemma_every_package_is_node(packages: Seq<Package>, node: int)
    requires
        0 <= node < packages.len(),
    ensures
        directory_model(packages).has_node(node),
        directory_model(packages).packages[node] == packages[node],
{
}

/// The package at `target` satisfies one of the first `count` specifiers.
pub open spec fn some_satisfied(
    specifiers: Seq<Specifier>,
    packages: Seq<Package>,
    target: int,
    count: nat,
) -> bool {
    exists|j: int| 0 <= j < count && #[trigger] satisfies(&specifiers[j], packages, target)
}

/// The directory calls for the edge: its source is an installed package, and
/// its target satisfies one of the source's required dependencies, for a
/// required edge, or one of its optional dependencies, for an optional edge.
pub open spec fn called_for(packages: Seq<Package>, edge: Edge) -> bool {
    &&& edge.source < packages.len()
    &&& match edge.kind {
        DependencyEdge::Required => some_satisfied(
            packages[edge.source as int].depends@,
            packages,
            edge.target as int,
            packages[edge.source as int].depends@.len(),
        ),
        DependencyEdge::Optional => some_satisfied(
            packages[edge.source as int].optdepends@,
            packages,
            edge.target as int,
            packages[edge.source as int].optdepends@.len(),
        ),
    }
}

/// What two sequences hold one after the other is what either holds.
proof fn lemma_concat_contains<A>(first: Seq<A>, second: Seq<A>, value: A)
    ensures
        (first + second).contains(value) <==> first.contains(value) || second.contains(value),
{
    let both = first + second;
    if both.contains(value) {
        let k = choose|k: int| 0 <= k < both.len() && both[k] == value;
        if k < first.len() {
            assert(first[k] == value);
        } else {
            assert(second[k - first.len()] == value);
        }
    }
    if first.contains(value) {
        let k = choose|k: int| 0 <= k < first.len() && first[k] == value;
        assert(both[k] == value);
    }
    if second.contains(value) {
        let k = choose|k: int| 0 <= k < second.len() && second[k] == value;
        assert(both[k + first.len()] == value);
    }
}

/// The edges of one specifier lead from the source to exactly the packages
/// that satisfy it.
proof fn lemma_specifier_edges(
    source: usize,
    specifier: &Specifier,
    kind: DependencyEdge,
    packages: Seq<Package>,
    edge: Edge,
)
    requires
        packages.len() <= usize::MAX,
    ensures
        specifier_edges(source, specifier, kind, packages).contains(edge) <==> edge.source
            == source && edge.kind == kind && satisfies(specifier, packages, edge.target as int),
{
    let targets = satisfiers(specifier, packages, packages.len());
    let edges = specifier_edges(source, specifier, kind, packages);
    lemma_satisfiers(specifier, packages, packages.len());
    if edges.contains(edge) {
        let k = choose|k: int| 0 <= k < edges.len() && edges[k] == edge;
        assert(targets[k] == edge.target);
        assert(targets.contains(edge.target));
    }
    if edge.source == source && edge.kind == kind && satisfies(
        specifier,
        packages,
        edge.target as int,
    ) {
        assert(targets.contains(edge.target));
        let k = choose|k: int| 0 <= k < targets.len() && targets[k] == edge.target;
        assert(edges[k] == edge);
    }
}

/// The edges of a list of specifiers lead from the source to exactly the
/// packages that satisfy one of them.
proof fn lemma_specifiers_edges(
    source: usize,
    specifiers: Seq<Specifier>,
    kind: DependencyEdge,
    packages: Seq<Package>,
    count: nat,
    edge: Edge,
)
    requires
        packages.len() <= usize::MAX,
        count <= specifiers.len(),
    ensures
        specifiers_edges(source, specifiers, kind, packages, count).contains(edge) <==> edge.source
            == source && edge.kind == kind && some_satisfied(
            specifiers,
            packages,
            edge.target as int,
            count,
        ),
    decreases count,
{
    if count > 0 {
        let before = specifiers_edges(source, specifiers, kind, packages, (count - 1) as nat);
        let last = specifier_edges(source, &specifiers[count - 1], kind, packages);
        lemma_specifiers_edges(source, specifiers, kind, packages, (count - 1) as nat, edge);
        lemma_specifier_edges(source, &specifiers[count - 1], kind, packages, edge);
        lemma_concat_contains(before, last, edge);
        if some_satisfied(specifiers, packages, edge.target as int, count) {
            let j = choose|j: int|
                0 <= j < count && #[trigger] satisfies(
                    &specifiers[j],
                    packages,
                    edge.target as int,
                );
            if j < count - 1 {
                assert(some_satisfied(specifiers, packages, edge.target as int, (count - 1) as nat));
            }
        }
        if some_satisfied(specifiers, packages, edge.target as int, (count - 1) as nat) {
            let j = choose|j: int|
                0 <= j < count - 1 && #[trigger] satisfies(
                    &specifiers[j],
                    packages,
                    edge.target as int,
                );
            assert(satisfies(&specifiers[j], packages, edge.target as int));
        }
        if satisfies(&specifiers[count - 1], packages, edge.target as int) {
            assert(some_satisfied(specifiers, packages, edge.target as int, count));
        }
    }
}

/// The edges of the first `count` packages are those that the directory calls
/// for and that leave one of these packages.
proof fn lemma_directory_edges_below(packages: Seq<Package>, count: nat, edge: Edge)
    requires
        packages.len() <= usize::MAX,
        count <= packages.len(),
    ensures
        directory_edges(packages, count).contains(edge) <==> edge.source < count && called_for(
            packages,
            edge,
        ),
    decreases count,
{
    if count > 0 {
        let source = (count - 1) as usize;
        let before = directory_edges(packages, (count - 1) as nat);
        let required = specifiers_edges(
            source,
            packages[source as int].depends@,
            DependencyEdge::Required,
            packages,
            packages[source as int].depends@.len(),
        );
        let optional = specifiers_edges(
            source,
            packages[source as int].optdepends@,
            DependencyEdge::Optional,
            packages,
            packages[source as int].optdepends@.len(),
        );
        lemma_directory_edges_below(packages, (count - 1) as nat, edge);
        lemma_specifiers_edges(
            source,
            packages[source as int].depends@,
            DependencyEdge::Required,
            packages,
            packages[source as int].depends@.len(),
            edge,
        );
        lemma_specifiers_edges(
            source,
            packages[source as int].optdepends@,
            DependencyEdge::Optional,
            packages,
            packages[source as int].optdepends@.len(),
            edge,
        );
        lemma_concat_contains(required, optional, edge);
        lemma_concat_contains(before, package_edges(source, packages), edge);
    }
}

/// The graph of a directory has exactly the edges that the directory calls
/// for: one from a package to each package that satisfies one of its
/// dependencies, of the kind of that dependency. A dependency that nothing
/// satisfies gives no edge.
pub proof fn lemma_directory_edges(packages: Seq<Package>, edge: Edge)
    requires
        packages.len() <= usize::MAX,
    ensures
        directory_edges(packages, packages.len()).contains(edge) <==> called_for(packages, edge),
        directory_model(packages).slots.contains(Some(edge)) <==> called_for(packages, edge),
{
    lemma_directory_edges_below(packages, packages.len(), edge);
    let edges = directory_edges(packages, packages.len());
    let slots = directory_model(packages).slots;
    if slots.contains(Some(edge)) {
        let k = choose|k: int| 0 <= k < slots.len() && slots[k] == Some(edge);
        assert(edges[k] == edge);
    }
    if edges.contains(edge) {
        let k = choose|k: int| 0 <= k < edges.len() && edges[k] == edge;
        assert(slots[k] == Some(edge));
    }
}

/// The graph of a directory is well formed.
pub proof fn lemma_directory_model_well_formed(packages: Seq<Package>)
    requires
        packages.len() <= usize::MAX,
        directory_edges(packages, packages.len()).len() <= usize::MAX,
    ensures
        directory_model(packages).well_formed(),
{
    let graph = directory_model(packages);
    assert forall|slot: int| 0 <= slot < graph.slots.len() implies (
    #[trigger] graph.slots[slot] matches Some(edge) ==> graph.has_node(edge.source as int)
        && graph.has_node(edge.target as int)) by {
        let edge = directory_edges(packages, packages.len())[slot];
        assert(directory_edges(packages, packages.len()).contains(edge));
        lemma_directory_edges(packages, edge);
        if edge.kind == DependencyEdge::Required {
            let j = choose|j: int|
                0 <= j < packages[edge.source as int].depends@.len() && #[trigger] satisfies(
                    &packages[edge.source as int].depends@[j],
                    packages,
                    edge.target as int,
                );
        } else {
            let j = choose|j: int|
                0 <= j < packages[edge.source as int].optdepends@.len() && #[trigger] satisfies(
                    &packages[edge.source as int].optdepends@[j],
                    packages,
                    edge.target as int,
                );
        }
    }
}

} // verus!
