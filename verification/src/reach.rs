//! Paths along dependency edges.

use vstd::prelude::*;
use crate::graph::GraphModel;

verus! {

/// A walk along edges of the graph: a non-empty sequence of nodes, each of
/// which depends on the next.
pub open spec fn is_path(graph: GraphModel, path: Seq<int>) -> bool {
    &&& path.len() > 0
    &&& forall|i: int|
        0 <= i < path.len() - 1 ==> graph.depends_on(#[trigger] path[i], path[i + 1])
}

/// Following no, one or more edges leads from `from` to `to`.
pub open spec fn reaches(graph: GraphModel, from: int, to: int) -> bool {
    exists|path: Seq<int>| #[trigger] is_path(graph, path) && path[0] == from && path.last() == to
}

/// Following one or more edges leads from `dependent` to `dependency`: the
/// first depends on the second, directly or through others.
pub open spec fn depends_through(
    graph: GraphModel,
    dependent: int,
    dependency: int,
) -> bool {
    exists|path: Seq<int>|
        #[trigger] is_path(graph, path) && path.len() >= 2 && path[0] == dependent && path.last()
            == dependency
}

/// A node reaches another exactly if it is that node or depends on it through
/// one or more edges.
pub proof fn lemma_reaches_is_self_or_through(graph: GraphModel, from: int, to: int)
    ensures
        reaches(graph, from, to) <==> (from == to || depends_through(graph, from, to)),
{
    if reaches(graph, from, to) {
        let path = choose|path: Seq<int>|
            #[trigger] is_path(graph, path) && path[0] == from && path.last() == to;
        if path.len() >= 2 {
            assert(depends_through(graph, from, to));
        }
    }
    if from == to {
        let path = seq![from];
        assert(is_path(graph, path));
        assert(path[0] == from && path.last() == to);
    }
    if depends_through(graph, from, to) {
        let path = choose|path: Seq<int>|
            #[trigger] is_path(graph, path) && path.len() >= 2 && path[0] == from && path.last()
                == to;
        assert(is_path(graph, path) && path[0] == from && path.last() == to);
    }
}

/// An edge in front of a path makes a path.
pub proof fn lemma_reaches_step(graph: GraphModel, from: int, via: int, to: int)
    requires
        graph.depends_on(from, via),
        reaches(graph, via, to),
    ensures
        reaches(graph, from, to),
        depends_through(graph, from, to),
{
    let rest = choose|path: Seq<int>|
        #[trigger] is_path(graph, path) && path[0] == via && path.last() == to;
    let path = seq![from] + rest;
    assert forall|i: int| 0 <= i < path.len() - 1 implies graph.depends_on(#[trigger] path[i],
        path[i + 1],
    ) by {
        if i > 0 {
            assert(path[i] == rest[i - 1]);
            assert(path[i + 1] == rest[i - 1 + 1]);
        }
    }
    assert(is_path(graph, path) && path.len() >= 2 && path[0] == from && path.last() == to);
}

/// Two paths that meet make a path.
pub proof fn lemma_reaches_transitive(graph: GraphModel, from: int, via: int, to: int)
    requires
        reaches(graph, from, via),
        reaches(graph, via, to),
    ensures
        reaches(graph, from, to),
{
    let head = choose|path: Seq<int>|
        #[trigger] is_path(graph, path) && path[0] == from && path.last() == via;
    lemma_path_then_reaches(graph, head, to);
}

/// A path into a node that reaches `to` starts at a node that reaches `to`.
proof fn lemma_path_then_reaches(graph: GraphModel, head: Seq<int>, to: int)
    requires
        is_path(graph, head),
        reaches(graph, head.last(), to),
    ensures
        reaches(graph, head[0], to),
    decreases head.len(),
{
    if head.len() > 1 {
        let tail = head.drop_first();
        assert forall|i: int| 0 <= i < tail.len() - 1 implies graph.depends_on(#[trigger] tail[i],
            tail[i + 1],
        ) by {
            assert(tail[i] == head[i + 1]);
            assert(tail[i + 1] == head[i + 1 + 1]);
        }
        assert(tail.last() == head.last());
        lemma_path_then_reaches(graph, tail, to);
        assert(tail[0] == head[1]);
        assert(graph.depends_on(head[0], head[0int + 1]));
        lemma_reaches_step(graph, head[0], head[1], to);
    }
}

} // verus!
