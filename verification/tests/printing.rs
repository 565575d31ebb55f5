use pacgraph::args::{Dependents, GraphOptions, Orphans};
use pacgraph::commands::{
    dependents_command, list_dependents, list_orphans, orphans_command, CommandError,
};
use pacgraph::dependencies::dependents;
use pacgraph::graph::{build_graph, filtered, DependencyEdge};
use pacgraph::order::sort_by_name;
use pacgraph::package::{Package, Specifier};
use pacgraph::print::{edge_attributes, node_attributes, print_package_graph, DisplayPackageAnsi};

fn dep(name: &str) -> Specifier {
    Specifier::new(name.to_string())
}

fn package(name: &str, version: &str, depends: Vec<Specifier>, optdepends: Vec<Specifier>) -> Package {
    Package {
        name: name.to_string(),
        version: version.to_string(),
        depends,
        optdepends,
        provides: Vec::new(),
    }
}

/// A requires B, B requires nothing, C optionally requires A.
fn three_packages() -> Vec<Package> {
    vec![
        package("A", "1.0-1", vec![dep("B")], vec![]),
        package("B", "2.0-1", vec![], vec![]),
        package("C", "3.0-1", vec![], vec![dep("A")]),
    ]
}

fn options(ignore_optdepends: bool, quiet: bool, dot: bool) -> GraphOptions {
    GraphOptions { ignore_optdepends, quiet, dot }
}

#[test]
fn package_line_is_the_name_alone_by_default() {
    let pkg = package("bash", "5.2-1", vec![], vec![]);
    assert_eq!(DisplayPackageAnsi::new(&pkg).render(), "bash");
    assert_eq!(DisplayPackageAnsi::new(&pkg).with_version(false).render(), "bash");
}

#[test]
fn package_line_with_version_is_styled() {
    let pkg = package("bash", "5.2-1", vec![], vec![]);
    assert_eq!(
        DisplayPackageAnsi::new(&pkg).with_version(true).render(),
        "\u{1b}[1mbash \u{1b}[1m\u{1b}[32m5.2-1\u{1b}[0m"
    );
    let unset = DisplayPackageAnsi::new(&pkg).with_version(true).with_version(false);
    assert_eq!(unset.render(), "bash");
}

#[test]
fn edge_attributes_tell_the_kinds_apart() {
    assert_eq!(edge_attributes(DependencyEdge::Required), "style = solid");
    assert_eq!(edge_attributes(DependencyEdge::Optional), "style = dashed");
}

#[test]
fn node_attributes_hold_name_and_version() {
    let pkg = package("bash", "5.2-1", vec![], vec![]);
    assert_eq!(
        node_attributes(&pkg, false),
        "label = <<FONT FACE=\"sans-serif\">bash</FONT>>"
    );
    assert_eq!(
        node_attributes(&pkg, true),
        "label = <<FONT FACE=\"sans-serif\"><B>bash <FONT COLOR=\"green\">5.2-1</FONT></B></FONT>>"
    );
}

#[test]
fn graph_is_drawn_as_dot() {
    let graph = build_graph(three_packages());
    let expected = "digraph {\n    rankdir=\"TB\"\n    \
        0 [ label = <<FONT FACE=\"sans-serif\">A</FONT>>]\n    \
        1 [ label = <<FONT FACE=\"sans-serif\">B</FONT>>]\n    \
        2 [ label = <<FONT FACE=\"sans-serif\">C</FONT>>]\n    \
        0 -> 1 [ style = solid]\n    \
        2 -> 0 [ style = dashed]\n}\n\n";
    assert_eq!(print_package_graph(&graph, false), expected);
}

#[test]
fn graph_is_drawn_with_versions() {
    let graph = build_graph(three_packages());
    let expected = "digraph {\n    rankdir=\"TB\"\n    \
        0 [ label = <<FONT FACE=\"sans-serif\"><B>A <FONT COLOR=\"green\">1.0-1</FONT></B></FONT>>]\n    \
        1 [ label = <<FONT FACE=\"sans-serif\"><B>B <FONT COLOR=\"green\">2.0-1</FONT></B></FONT>>]\n    \
        2 [ label = <<FONT FACE=\"sans-serif\"><B>C <FONT COLOR=\"green\">3.0-1</FONT></B></FONT>>]\n    \
        0 -> 1 [ style = solid]\n    \
        2 -> 0 [ style = dashed]\n}\n\n";
    assert_eq!(print_package_graph(&graph, true), expected);
}

#[test]
fn filtered_view_is_drawn_without_optional_edges() {
    let graph = build_graph(three_packages());
    let expected = "digraph {\n    rankdir=\"TB\"\n    \
        0 [ label = <<FONT FACE=\"sans-serif\">A</FONT>>]\n    \
        1 [ label = <<FONT FACE=\"sans-serif\">B</FONT>>]\n    \
        2 [ label = <<FONT FACE=\"sans-serif\">C</FONT>>]\n    \
        0 -> 1 [ style = solid]\n}\n\n";
    assert_eq!(print_package_graph(&filtered(&graph), false), expected);
}

#[test]
fn subgraph_is_drawn_with_its_nodes_renumbered() {
    let graph = build_graph(three_packages());
    // The dependents of A are A and C: C becomes node 1 of the drawing.
    let found = dependents(&graph, 0);
    let expected = "digraph {\n    rankdir=\"TB\"\n    \
        0 [ label = <<FONT FACE=\"sans-serif\">A</FONT>>]\n    \
        1 [ label = <<FONT FACE=\"sans-serif\">C</FONT>>]\n    \
        1 -> 0 [ style = dashed]\n}\n\n";
    assert_eq!(print_package_graph(&found, false), expected);
}

#[test]
fn empty_graph_is_drawn_as_empty_document() {
    let graph = build_graph(Vec::new());
    assert_eq!(print_package_graph(&graph, true), "digraph {\n    rankdir=\"TB\"\n}\n\n");
}

#[test]
fn node_numbers_have_several_digits() {
    let mut packages = Vec::new();
    for i in 0..12 {
        packages.push(package(&format!("p{i}"), "1", vec![], vec![]));
    }
    packages[11].depends.push(dep("p10"));
    let text = print_package_graph(&build_graph(packages), false);
    assert!(text.contains("    10 [ label = <<FONT FACE=\"sans-serif\">p10</FONT>>]\n"));
    assert!(text.ends_with("    11 -> 10 [ style = solid]\n}\n\n"));
}

#[test]
fn nodes_are_sorted_by_name() {
    let graph = build_graph(vec![
        package("zsh", "1", vec![], vec![]),
        package("bash", "1", vec![], vec![]),
        package("Bash", "1", vec![], vec![]),
        package("bash-completion", "1", vec![], vec![]),
        package("ash", "1", vec![], vec![]),
    ]);
    assert_eq!(sort_by_name(&graph, &vec![0, 1, 2, 3, 4]), vec![2, 4, 1, 3, 0]);
    assert_eq!(sort_by_name(&graph, &vec![4, 3, 1]), vec![4, 1, 3]);
    assert_eq!(sort_by_name(&graph, &vec![3, 0, 3]), vec![3, 3, 0]);
    assert_eq!(sort_by_name(&graph, &Vec::new()), Vec::<usize>::new());
}

#[test]
fn nodes_of_one_name_are_sorted_by_index() {
    let graph = build_graph(vec![
        package("b", "1", vec![], vec![]),
        package("a", "1", vec![], vec![]),
        package("b", "2", vec![], vec![]),
    ]);
    assert_eq!(sort_by_name(&graph, &vec![2, 1, 0]), vec![1, 0, 2]);
}

#[test]
fn orphans_are_listed_by_name() {
    let packages = vec![
        package("zlib", "1.3-1", vec![], vec![]),
        package("app", "2.0-1", vec![dep("zlib")], vec![]),
        package("tool", "0.1-1", vec![], vec![dep("app")]),
        package("alone", "9-1", vec![], vec![]),
    ];
    let listing = Orphans { graph_options: options(false, true, false) };
    assert_eq!(orphans_command(&listing, packages.clone()), "alone\ntool\n");
    let required = Orphans { graph_options: options(true, true, false) };
    assert_eq!(orphans_command(&required, packages.clone()), "alone\napp\ntool\n");
    let versions = Orphans { graph_options: options(false, false, false) };
    assert_eq!(
        orphans_command(&versions, packages),
        "\u{1b}[1malone \u{1b}[1m\u{1b}[32m9-1\u{1b}[0m\n\u{1b}[1mtool \u{1b}[1m\u{1b}[32m0.1-1\u{1b}[0m\n"
    );
}

#[test]
fn orphans_of_scenario_are_listed() {
    let plain = Orphans { graph_options: options(false, true, false) };
    assert_eq!(orphans_command(&plain, three_packages()), "C\n");
    let required = Orphans { graph_options: options(true, true, false) };
    assert_eq!(orphans_command(&required, three_packages()), "A\nC\n");
    assert_eq!(orphans_command(&plain, Vec::new()), "");
}

#[test]
fn orphans_command_draws_the_whole_graph_as_dot() {
    let drawn = Orphans { graph_options: options(false, true, true) };
    let graph = build_graph(three_packages());
    assert_eq!(orphans_command(&drawn, three_packages()), print_package_graph(&graph, false));
    let versions = Orphans { graph_options: options(true, false, true) };
    assert_eq!(
        orphans_command(&versions, three_packages()),
        print_package_graph(&filtered(&graph), true)
    );
    assert_eq!(list_orphans(&drawn, &graph), print_package_graph(&graph, false));
}

#[test]
fn dependents_command_fails_for_unknown_package() {
    let asked = Dependents { package: "D".to_string(), graph_options: options(false, false, true) };
    assert_eq!(dependents_command(&asked, three_packages()), Err(CommandError::PackageNotFound));
    assert_eq!(dependents_command(&asked, Vec::new()), Err(CommandError::PackageNotFound));
}

#[test]
fn dependents_command_draws_the_dependents_as_dot() {
    let asked = Dependents { package: "B".to_string(), graph_options: options(true, true, true) };
    let expected = "digraph {\n    rankdir=\"TB\"\n    \
        0 [ label = <<FONT FACE=\"sans-serif\">A</FONT>>]\n    \
        1 [ label = <<FONT FACE=\"sans-serif\">B</FONT>>]\n    \
        0 -> 1 [ style = solid]\n}\n\n";
    assert_eq!(dependents_command(&asked, three_packages()), Ok(expected.to_string()));
    let all = Dependents { package: "B".to_string(), graph_options: options(false, true, true) };
    let graph = build_graph(three_packages());
    assert_eq!(
        dependents_command(&all, three_packages()),
        Ok(print_package_graph(&graph, false))
    );
    let of_a = Dependents { package: "A".to_string(), graph_options: options(true, true, true) };
    let alone = "digraph {\n    rankdir=\"TB\"\n    \
        0 [ label = <<FONT FACE=\"sans-serif\">A</FONT>>]\n}\n\n";
    assert_eq!(dependents_command(&of_a, three_packages()), Ok(alone.to_string()));
}

#[test]
fn dependents_command_prints_nothing_without_dot() {
    let asked = Dependents { package: "B".to_string(), graph_options: options(false, false, false) };
    assert_eq!(dependents_command(&asked, three_packages()), Ok(String::new()));
    let graph = build_graph(three_packages());
    assert_eq!(list_dependents(&asked, &graph, 1), "");
}
