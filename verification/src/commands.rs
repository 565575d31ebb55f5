//! The two commands, from the installed packages to the text to print.

use vstd::prelude::*;
use vstd::string::StringExecFns;
use crate::args::{Dependents, Orphans};
use crate::dependencies::{dependents, dependents_of, lemma_orphans_below, orphans, orphans_of};
use crate::graph::{build_graph, directory_model, filtered, required_only, DependencyGraph, GraphModel};
use crate::order::{name_order, sort_by_name};
use crate::package::Package;
use crate::print::{package_graph_text, package_line, print_package_graph, DisplayPackageAnsi};
use crate::resolve::find_package;

verus! {

/// Why a command has no text to give.
#[derive(Clone, Copy, PartialEq, Eq, Structural, Debug)]
pub enum CommandError {
    /// No installed package bears the name asked for.
    PackageNotFound,
}

/// One line for each of the first `count` nodes, in their order.
pub open spec fn package_lines(
    packages: Seq<Package>,
    nodes: Seq<usize>,
    with_version: bool,
    count: nat,
) -> Seq<char>
    decreases count,
{
    if count == 0 {
        Seq::empty()
    } else {
        package_lines(packages, nodes, with_version, (count - 1) as nat) + package_line(
            packages[nodes[count - 1] as int].name@,
            packages[nodes[count - 1] as int].version@,
            with_version,
        ) + "\n"@
    }
}

/// What `list_orphans` gives for a graph: the whole graph as a dot document
/// where that is asked for, else the orphans by name, one in a line.
/// Versions are shown unless quiet is asked for.
pub open spec fn orphans_text(options: &Orphans, graph: GraphModel) -> Seq<char> {
    if options.graph_options.dot {
        package_graph_text(graph, !options.graph_options.quiet)
    } else {
        package_lines(
            graph.packages,
            orphans_of(graph).sort_by(name_order(graph.packages)),
            !options.graph_options.quiet,
            orphans_of(graph).len(),
        )
    }
}

/// What `orphans_command` gives for the installed packages: `orphans_text` of
/// their graph, without its optional edges where they are to be ignored.
pub open spec fn orphans_command_text(options: &Orphans, packages: Seq<Package>) -> Seq<char> {
    if options.graph_options.ignore_optdepends {
        orphans_text(options, required_only(directory_model(packages)))
    } else {
        orphans_text(options, directory_model(packages))
    }
}

/// What `list_dependents` gives for a graph and a target: the dependents of
/// the target as a dot document where that is asked for, else nothing.
pub open spec fn dependents_text(options: &Dependents, graph: GraphModel, target: int) -> Seq<
    char,
> {
    if options.graph_options.dot {
        package_graph_text(dependents_of(graph, target), !options.graph_options.quiet)
    } else {
        Seq::empty()
    }
}

/// What `dependents_command` gives for the installed packages and a target:
/// `dependents_text` of their graph, without its optional edges where they
/// are to be ignored.
pub open spec fn dependents_command_text(
    options: &Dependents,
    packages: Seq<Package>,
    target: int,
) -> Seq<char> {
    if options.graph_options.ignore_optdepends {
        dependents_text(options, required_only(directory_model(packages)), target)
    } else {
        dependents_text(options, directory_model(packages), target)
    }
}

/// The package at `index` is the first that bears `name`.
pub open spec fn is_first_named(packages: Seq<Package>, name: Seq<char>, index: int) -> bool {
    &&& 0 <= index < packages.len()
    &&& packages[index].name@ == name
    &&& forall|earlier: int| 0 <= earlier < index ==> (#[trigger] packages[earlier]).name@ != name
}

/// The text that lists the orphans of a graph, or of a view of one.
pub fn list_orphans<G: DependencyGraph>(options: &Orphans, graph: &G) -> (text: String)
    requires
        graph.valid(),
    ensures
        text@ == orphans_text(options, graph.model()),
{
    let with_version = !options.graph_options.quiet;
    if options.graph_options.dot {
        print_package_graph(graph, with_version)
    } else {
        let found = orphans(graph);
        proof {
            graph.lemma_well_formed();
            lemma_orphans_below(graph.model(), graph.model().packages.len());
        }
        let sorted = sort_by_name(graph, &found);
        proof {
            vstd::seq_lib::to_multiset_len(sorted@);
            vstd::seq_lib::to_multiset_len(found@);
            assert forall|k: int| 0 <= k < sorted@.len() implies (#[trigger] sorted@[k])
                < graph.model().packages.len() by {
                vstd::seq_lib::to_multiset_contains(sorted@, sorted@[k]);
                vstd::seq_lib::to_multiset_contains(found@, sorted@[k]);
                assert(sorted@.contains(sorted@[k]));
                let j = choose|j: int| 0 <= j < found@.len() && found@[j] == sorted@[k];
            }
        }
        let mut text = String::new();
        let mut i: usize = 0;
        while i < sorted.len()
            invariant
                graph.valid(),
                i <= sorted@.len(),
                forall|k: int|
                    0 <= k < sorted@.len() ==> (#[trigger] sorted@[k])
                        < graph.model().packages.len(),
                text@ == package_lines(graph.model().packages, sorted@, with_version, i as nat),
            decreases sorted@.len() - i,
        {
            let line = DisplayPackageAnsi::new(graph.package(sorted[i])).with_version(
                with_version,
            ).render();
            text.append(line.as_str());
            text.append("\n");
            i += 1;
        }
        text
    }
}

/// The orphans command: builds the graph of the installed packages, leaves
/// the optional edges out where that is asked for, and lists the orphans.
pub fn orphans_command(options: &Orphans, packages: Vec<Package>) -> (text: String)
    ensures
        text@ == orphans_command_text(options, packages@),
{
    let graph = build_graph(packages);
    if options.graph_options.ignore_optdepends {
        list_orphans(options, &filtered(&graph))
    } else {
        list_orphans(options, &graph)
    }
}

/// The text that shows what depends on a package of a graph, or of a view of
/// one. The package must be a node of the graph.
pub fn list_dependents<G: DependencyGraph>(options: &Dependents, graph: &G, package: usize) -> (text:
    String)
    requires
        graph.valid(),
        graph.model().has_node(package as int),
    ensures
        text@ == dependents_text(options, graph.model(), package as int),
{
    let found = dependents(graph, package);
    let with_version = !options.graph_options.quiet;
    if options.graph_options.dot {
        print_package_graph(&found, with_version)
    } else {
        String::new()
    }
}

/// The dependents command: looks the package up by the literal name asked
/// for, builds the graph of the installed packages, leaves the optional edges
/// out where that is asked for, and shows what depends on the package.
///
/// It fails exactly if no installed package bears the name.
pub fn dependents_command(options: &Dependents, packages: Vec<Package>) -> (result: Result<
    String,
    CommandError,
>)
    ensures
        result is Ok <==> exists|index: int|
            0 <= index < packages@.len() && (#[trigger] packages@[index]).name@
                == options.package@,
        result matches Ok(text) ==> exists|target: int| #[trigger]
            is_first_named(packages@, options.package@, target) && text@
                == dependents_command_text(options, packages@, target),
        result matches Err(error) ==> error == CommandError::PackageNotFound,
{
    let target = match find_package(&packages, &options.package) {
        Some(target) => target,
        None => {
            return Err(CommandError::PackageNotFound);
        },
    };
    assert(is_first_named(packages@, options.package@, target as int));
    let graph = build_graph(packages);
    let text = if options.graph_options.ignore_optdepends {
        list_dependents(options, &filtered(&graph), target)
    } else {
        list_dependents(options, &graph, target)
    };
    Ok(text)
}

} // verus!
