use pacgraph::dependencies::{dependents, orphans};
use pacgraph::graph::{build_graph, filtered, DependencyEdge, DependencyGraph, Edge};
use pacgraph::package::{Capability, Package, Specifier, VersionConstraint};

fn dep(name: &str) -> Specifier {
    Specifier::new(name.to_string())
}

fn package(name: &str, depends: Vec<Specifier>, optdepends: Vec<Specifier>) -> Package {
    Package {
        name: name.to_string(),
        version: "1.0-1".to_string(),
        depends,
        optdepends,
        provides: Vec::new(),
    }
}

fn provider(name: &str, provides: Vec<Capability>) -> Package {
    Package {
        name: name.to_string(),
        version: "1.0-1".to_string(),
        depends: Vec::new(),
        optdepends: Vec::new(),
        provides,
    }
}

fn edges_of<G: DependencyGraph>(graph: &G) -> Vec<Edge> {
    let mut edges = Vec::new();
    for slot in 0..graph.edge_bound() {
        if let Some(edge) = graph.edge(slot) {
            edges.push(edge);
        }
    }
    edges
}

fn members_of<G: DependencyGraph>(graph: &G) -> Vec<usize> {
    (0..graph.node_bound()).filter(|node| graph.contains_node(*node)).collect()
}

/// A requires B, B requires nothing, C optionally requires A.
fn three_packages() -> Vec<Package> {
    vec![
        package("A", vec![dep("B")], vec![]),
        package("B", vec![], vec![]),
        package("C", vec![], vec![dep("A")]),
    ]
}

#[test]
fn scenario_builds_two_edges() {
    let graph = build_graph(three_packages());
    assert_eq!(graph.node_bound(), 3);
    assert_eq!(
        edges_of(&graph),
        vec![
            Edge { source: 0, target: 1, kind: DependencyEdge::Required },
            Edge { source: 2, target: 0, kind: DependencyEdge::Optional },
        ]
    );
    assert_eq!(graph.package(2).name, "C");
}

#[test]
fn scenario_orphans_without_filter() {
    let graph = build_graph(three_packages());
    assert_eq!(orphans(&graph), vec![2]);
}

#[test]
fn scenario_orphans_with_required_only() {
    let graph = build_graph(three_packages());
    assert_eq!(orphans(&filtered(&graph)), vec![0, 2]);
}

#[test]
fn scenario_dependents_of_b() {
    let graph = build_graph(three_packages());
    let view = filtered(&graph);
    let found = dependents(&view, 1);
    assert_eq!(members_of(&found), vec![0, 1]);
    assert!(found.contains(0));
    assert!(found.contains(1));
    assert!(!found.contains(2));
    assert!(!found.contains(7));
    assert_eq!(found.target(), 1);
    assert_eq!(found.discovery_order(), &vec![1, 0]);
    assert_eq!(found.parent_of(0), Some(1));
    assert_eq!(found.parent_of(1), None);
    assert_eq!(found.parent_of(2), None);
    assert_eq!(
        edges_of(&found),
        vec![Edge { source: 0, target: 1, kind: DependencyEdge::Required }]
    );
}

#[test]
fn scenario_dependents_of_b_through_optional_edge() {
    // C optionally requires A and A requires B: with the optional edges in
    // the graph a path leads from C to B.
    let graph = build_graph(three_packages());
    let found = dependents(&graph, 1);
    assert_eq!(members_of(&found), vec![0, 1, 2]);
    assert_eq!(found.discovery_order(), &vec![1, 0, 2]);
    assert_eq!(found.parent_of(0), Some(1));
    assert_eq!(found.parent_of(2), Some(0));
    assert_eq!(found.parent_of(1), None);
    assert_eq!(edges_of(&found).len(), 2);
}

#[test]
fn dependents_follow_optional_edges_unless_filtered() {
    let graph = build_graph(three_packages());
    assert_eq!(members_of(&dependents(&graph, 0)), vec![0, 2]);
    let view = filtered(&graph);
    assert_eq!(members_of(&dependents(&view, 0)), vec![0]);
    assert_eq!(members_of(&dependents(&view, 1)), vec![0, 1]);
}

#[test]
fn dependents_are_transitive() {
    // D requires C, C requires B, B requires A, E stands alone.
    let graph = build_graph(vec![
        package("A", vec![], vec![]),
        package("B", vec![dep("A")], vec![]),
        package("C", vec![dep("B")], vec![]),
        package("D", vec![dep("C")], vec![]),
        package("E", vec![], vec![]),
    ]);
    let found = dependents(&graph, 0);
    assert_eq!(members_of(&found), vec![0, 1, 2, 3]);
    assert_eq!(found.discovery_order(), &vec![0, 1, 2, 3]);
    assert_eq!(found.parent_of(3), Some(2));
    assert_eq!(found.parent_of(2), Some(1));
    assert_eq!(found.parent_of(1), Some(0));
    assert_eq!(members_of(&dependents(&graph, 3)), vec![3]);
    assert_eq!(members_of(&dependents(&graph, 4)), vec![4]);
    assert_eq!(orphans(&graph), vec![3, 4]);
}

#[test]
fn target_is_always_a_dependent() {
    let graph = build_graph(three_packages());
    for target in 0..3 {
        assert!(dependents(&graph, target).contains(target));
        assert_eq!(dependents(&graph, target).discovery_order()[0], target);
    }
}

#[test]
fn cycle_of_required_and_optional_edge() {
    // A requires B, B optionally requires A.
    let graph = build_graph(vec![
        package("A", vec![dep("B")], vec![]),
        package("B", vec![], vec![dep("A")]),
    ]);
    assert_eq!(orphans(&graph), Vec::<usize>::new());
    assert_eq!(orphans(&filtered(&graph)), vec![0]);
    let of_a = dependents(&graph, 0);
    let of_b = dependents(&graph, 1);
    assert_eq!(members_of(&of_a), vec![0, 1]);
    assert_eq!(members_of(&of_b), vec![0, 1]);
    assert_eq!(of_a.discovery_order(), &vec![0, 1]);
    assert_eq!(of_b.discovery_order(), &vec![1, 0]);
    assert_eq!(members_of(&dependents(&filtered(&graph), 0)), vec![0]);
}

#[test]
fn self_loop_through_a_provided_name() {
    // A requires a capability that only A provides.
    let mut a = provider("A", vec![Capability { name: "virtual".to_string(), version: None }]);
    a.depends.push(dep("virtual"));
    let graph = build_graph(vec![a, package("B", vec![dep("A")], vec![])]);
    assert_eq!(
        edges_of(&graph),
        vec![
            Edge { source: 0, target: 0, kind: DependencyEdge::Required },
            Edge { source: 1, target: 0, kind: DependencyEdge::Required },
        ]
    );
    assert_eq!(orphans(&graph), vec![1]);
    let found = dependents(&graph, 0);
    assert_eq!(members_of(&found), vec![0, 1]);
    assert_eq!(found.discovery_order(), &vec![0, 1]);
    assert_eq!(edges_of(&found).len(), 2);
}

#[test]
fn longer_cycle_is_walked_once() {
    // A requires B, B requires C, C requires A, D requires A twice over.
    let graph = build_graph(vec![
        package("A", vec![dep("B")], vec![]),
        package("B", vec![dep("C")], vec![]),
        package("C", vec![dep("A")], vec![]),
        package("D", vec![dep("A")], vec![dep("A")]),
    ]);
    for target in 0..3 {
        let found = dependents(&graph, target);
        assert_eq!(members_of(&found), vec![0, 1, 2, 3]);
        let mut order = found.discovery_order().clone();
        assert_eq!(order.len(), 4);
        order.sort();
        assert_eq!(order, vec![0, 1, 2, 3]);
    }
    assert_eq!(members_of(&dependents(&graph, 3)), vec![3]);
    assert_eq!(orphans(&graph), vec![3]);
}

#[test]
fn empty_directory_gives_empty_graph() {
    let graph = build_graph(Vec::new());
    assert_eq!(graph.node_bound(), 0);
    assert_eq!(graph.edge_bound(), 0);
    assert_eq!(orphans(&graph), Vec::<usize>::new());
    assert_eq!(orphans(&filtered(&graph)), Vec::<usize>::new());
}

#[test]
fn isolated_packages_are_nodes_and_orphans() {
    let graph = build_graph(vec![package("A", vec![], vec![]), package("B", vec![], vec![])]);
    assert_eq!(graph.node_bound(), 2);
    assert!(graph.contains_node(0));
    assert!(graph.contains_node(1));
    assert_eq!(orphans(&graph), vec![0, 1]);
}

#[test]
fn unresolved_dependency_gives_no_edge() {
    let graph = build_graph(vec![package("A", vec![dep("missing")], vec![dep("gone")])]);
    assert_eq!(graph.node_bound(), 1);
    assert_eq!(edges_of(&graph), Vec::<Edge>::new());
    assert_eq!(orphans(&graph), vec![0]);
}

#[test]
fn required_and_optional_edge_between_one_pair_coexist() {
    let graph = build_graph(vec![
        package("A", vec![dep("B")], vec![dep("B")]),
        package("B", vec![], vec![]),
    ]);
    assert_eq!(
        edges_of(&graph),
        vec![
            Edge { source: 0, target: 1, kind: DependencyEdge::Required },
            Edge { source: 0, target: 1, kind: DependencyEdge::Optional },
        ]
    );
    assert_eq!(
        edges_of(&filtered(&graph)),
        vec![Edge { source: 0, target: 1, kind: DependencyEdge::Required }]
    );
    assert_eq!(filtered(&graph).edge(1), None);
    assert_eq!(filtered(&graph).edge_bound(), 2);
    assert_eq!(filtered(&graph).node_bound(), 2);
}

#[test]
fn filter_never_loses_an_orphan() {
    let directories = vec![
        three_packages(),
        vec![
            package("A", vec![dep("B")], vec![dep("C")]),
            package("B", vec![], vec![dep("C")]),
            package("C", vec![dep("D")], vec![]),
            package("D", vec![], vec![dep("A")]),
            package("E", vec![], vec![]),
        ],
    ];
    for packages in directories {
        let graph = build_graph(packages);
        let all = orphans(&graph);
        let required = orphans(&filtered(&graph));
        for node in all {
            assert!(required.contains(&node));
        }
    }
}

#[test]
fn rebuilding_gives_the_same_graph() {
    let packages = three_packages();
    let first = build_graph(packages.clone());
    let second = build_graph(packages.clone());
    assert_eq!(first.node_bound(), second.node_bound());
    assert_eq!(edges_of(&first), edges_of(&second));
    for node in 0..first.node_bound() {
        assert_eq!(first.package(node), second.package(node));
        assert_eq!(first.package(node), &packages[node]);
    }
}

#[test]
fn subgraph_is_a_graph_for_both_analyses() {
    // D requires C, C requires B, B requires A; E optionally requires C.
    let graph = build_graph(vec![
        package("A", vec![], vec![]),
        package("B", vec![dep("A")], vec![]),
        package("C", vec![dep("B")], vec![]),
        package("D", vec![dep("C")], vec![]),
        package("E", vec![], vec![dep("C")]),
    ]);
    let found = dependents(&graph, 1);
    assert_eq!(members_of(&found), vec![1, 2, 3, 4]);
    assert_eq!(found.node_bound(), 5);
    assert_eq!(found.package(4).name, "E");
    // B is the only member that no member depends on... in reverse: nothing
    // inside the subgraph points to D or E.
    assert_eq!(orphans(&found), vec![3, 4]);
    assert_eq!(orphans(&filtered(&found)), vec![3, 4]);
    assert_eq!(members_of(&dependents(&found, 2)), vec![2, 3, 4]);
    assert_eq!(members_of(&dependents(&filtered(&found), 2)), vec![2, 3]);
    assert_eq!(
        edges_of(&found),
        vec![
            Edge { source: 2, target: 1, kind: DependencyEdge::Required },
            Edge { source: 3, target: 2, kind: DependencyEdge::Required },
            Edge { source: 4, target: 2, kind: DependencyEdge::Optional },
        ]
    );
}

#[test]
fn version_constraint_is_kept_in_the_specifier() {
    let specifier = Specifier {
        name: "A".to_string(),
        constraint: VersionConstraint::Equal("2.0-1".to_string()),
    };
    let graph = build_graph(vec![
        package("A", vec![], vec![]),
        package("B", vec![specifier], vec![]),
    ]);
    // A is installed at 1.0-1 only, so nothing satisfies the specifier.
    assert_eq!(edges_of(&graph), Vec::<Edge>::new());
    assert_eq!(orphans(&graph), vec![0, 1]);
}
