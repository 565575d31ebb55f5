//! The two analyses: packages nothing depends on, and packages that depend on
//! a given one.

use vstd::prelude::*;
use crate::graph::{DependencyGraph, Edge, GraphModel};
use crate::package::Package;
use crate::reach::{
    depends_through, is_path, lemma_reaches_is_self_or_through, lemma_reaches_step, reaches,
};

verus! {

/// The node is in the graph and no edge of the graph points to it.
pub open spec fn is_orphan(graph: GraphModel, node: int) -> bool {
    graph.has_node(node) && forall|dependent: int| !graph.depends_on(dependent, node)
}

/// The orphans among the nodes below `bound`, ascending.
pub open spec fn orphans_below(graph: GraphModel, bound: nat) -> Seq<usize>
    decreases bound,
{
    if bound == 0 {
        Seq::empty()
    } else {
        let below = orphans_below(graph, (bound - 1) as nat);
        if is_orphan(graph, bound - 1) {
            below.push((bound - 1) as usize)
        } else {
            below
        }
    }
}

/// The orphans of the graph, ascending.
pub open spec fn orphans_of(graph: GraphModel) -> Seq<usize> {
    orphans_below(graph, graph.packages.len())
}

/// `orphans_below` lists exactly the orphans below the bound, each once, in
/// ascending order.
pub proof fn lemma_orphans_below(graph: GraphModel, bound: nat)
    requires
        bound <= usize::MAX,
    ensures
        forall|k: int|
            0 <= k < orphans_below(graph, bound).len() ==> (#[trigger] orphans_below(
                graph,
                bound,
            )[k]) < bound,
        forall|j: int, k: int|
            0 <= j < k < orphans_below(graph, bound).len() ==> orphans_below(graph, bound)[j]
                < orphans_below(graph, bound)[k],
        forall|node: int|
            0 <= node < bound ==> (is_orphan(graph, node) <==> orphans_below(
                graph,
                bound,
            ).contains(node as usize)),
    decreases bound,
{
    if bound > 0 {
        let below = orphans_below(graph, (bound - 1) as nat);
        let all = orphans_below(graph, bound);
        lemma_orphans_below(graph, (bound - 1) as nat);
        let last = (bound - 1) as usize;
        assert forall|node: int| 0 <= node < bound implies (is_orphan(graph, node)
            <==> all.contains(node as usize)) by {
            if is_orphan(graph, bound - 1) {
                assert(all == below.push(last));
                assert(all[below.len() as int] == last);
                if node < bound - 1 {
                    if below.contains(node as usize) {
                        let k = choose|k: int| 0 <= k < below.len() && below[k] == node as usize;
                        assert(all[k] == node as usize);
                    }
                    if all.contains(node as usize) {
                        let k = choose|k: int| 0 <= k < all.len() && all[k] == node as usize;
                        assert(k < below.len());
                        assert(below[k] == node as usize);
                    }
                }
            } else {
                if node == bound - 1 && all.contains(node as usize) {
                    let k = choose|k: int| 0 <= k < all.len() && all[k] == node as usize;
                    assert(below[k] < bound - 1);
                }
            }
        }
    }
}

/// A vector of `len` times `false`.
fn all_false(len: usize) -> (flags: Vec<bool>)
    ensures
        flags@.len() == len,
        forall|i: int| 0 <= i < len ==> !(#[trigger] flags@[i]),
{
    let mut flags: Vec<bool> = Vec::new();
    let mut i: usize = 0;
    while i < len
        invariant
            i <= len,
            flags@.len() == i,
            forall|j: int| 0 <= j < i ==> !(#[trigger] flags@[j]),
        decreases len - i,
    {
        flags.push(false);
        i += 1;
    }
    flags
}

/// The slot shows an edge that points to `node`.
pub open spec fn points_to(graph: GraphModel, slot: int, node: int) -> bool {
    &&& 0 <= slot < graph.slots.len()
    &&& graph.slots[slot] matches Some(edge)
    &&& edge.target == node
}

/// Some edge slot below `bound` shows an edge that points to `node`.
pub open spec fn targeted_below(graph: GraphModel, node: int, bound: int) -> bool {
    exists|slot: int| slot < bound && #[trigger] points_to(graph, slot, node)
}

/// The orphans of a graph or of a view of one: the nodes that no edge points
/// to, in ascending order.
///
/// One pass over the edges marks the nodes that an edge points to; one pass
/// over the nodes collects the others.
pub fn orphans<G: DependencyGraph>(graph: &G) -> (orphans: Vec<usize>)
    requires
        graph.valid(),
    ensures
        orphans@ == orphans_of(graph.model()),
        forall|node: int|
            0 <= node <= usize::MAX ==> (orphans@.contains(node as usize) <==> is_orphan(
                graph.model(),
                node,
            )),
        forall|j: int, k: int| 0 <= j < k < orphans@.len() ==> orphans@[j] < orphans@[k],
{
    let nodes = graph.node_bound();
    let slots = graph.edge_bound();
    let mut targeted = all_false(nodes);
    let ghost model = graph.model();
    proof {
        graph.lemma_well_formed();
    }
    let mut slot: usize = 0;
    while slot < slots
        invariant
            graph.valid(),
            model == graph.model(),
            model.well_formed(),
            slot <= slots,
            slots == model.slots.len(),
            nodes == model.packages.len(),
            targeted@.len() == nodes,
            forall|node: int|
                0 <= node < nodes ==> (#[trigger] targeted@[node] <==> targeted_below(
                    model,
                    node,
                    slot as int,
                )),
        decreases slots - slot,
    {
        let ghost before = targeted@;
        match graph.edge(slot) {
            Some(edge) => {
                targeted.set(edge.target, true);
                assert(points_to(model, slot as int, edge.target as int));
            },
            None => {},
        }
        assert forall|node: int| 0 <= node < nodes implies (#[trigger] targeted@[node]
            <==> targeted_below(model, node, slot + 1)) by {
            if targeted_below(model, node, slot as int) {
                let s = choose|s: int| s < slot && #[trigger] points_to(model, s, node);
                assert(s < slot + 1 && points_to(model, s, node));
            }
            if targeted_below(model, node, slot + 1) && !points_to(model, slot as int, node) {
                let s = choose|s: int| s < slot + 1 && #[trigger] points_to(model, s, node);
                assert(s < slot && points_to(model, s, node));
            }
        }
        slot += 1;
    }
    let mut orphans: Vec<usize> = Vec::new();
    let mut node: usize = 0;
    while node < nodes
        invariant
            graph.valid(),
            model == graph.model(),
            model.well_formed(),
            node <= nodes,
            slots == model.slots.len(),
            nodes == model.packages.len(),
            targeted@.len() == nodes,
            forall|v: int|
                0 <= v < nodes ==> (#[trigger] targeted@[v] <==> targeted_below(
                    model,
                    v,
                    slots as int,
                )),
            orphans@ == orphans_below(model, node as nat),
        decreases nodes - node,
    {
        let present = graph.contains_node(node);
        proof {
            let v = node as int;
            if targeted_below(model, v, slots as int) {
                let s = choose|s: int| s < slots && #[trigger] points_to(model, s, v);
                let edge = model.slots[s]->0;
                assert(model.joins(s, edge.source as int, v));
                assert(model.depends_on(edge.source as int, v));
                assert(!is_orphan(model, v));
            }
            if exists|dependent: int| model.depends_on(dependent, v) {
                let dependent = choose|dependent: int| model.depends_on(dependent, v);
                let s = choose|s: int| #[trigger] model.joins(s, dependent, v);
                assert(points_to(model, s, v));
                assert(s < slots);
                assert(targeted_below(model, v, slots as int));
            }
            assert(model.has_node(v) == present);
            assert(is_orphan(model, v) <==> (present && !targeted@[v]));
        }
        if present && !targeted[node] {
            orphans.push(node);
        }
        node += 1;
    }
    proof {
        lemma_orphans_below(model, nodes as nat);
        assert forall|v: int| 0 <= v <= usize::MAX implies (orphans@.contains(v as usize)
            <==> is_orphan(model, v)) by {
            if v >= nodes && orphans@.contains(v as usize) {
                let k = choose|k: int| 0 <= k < orphans@.len() && orphans@[k] == v as usize;
                assert(orphans@[k] < nodes);
            }
        }
    }
    orphans
}

/// For each node, the nodes that an edge of the graph joins to it.
fn incoming_lists<G: DependencyGraph>(graph: &G) -> (incoming: Vec<Vec<usize>>)
    requires
        graph.valid(),
    ensures
        incoming@.len() == graph.model().packages.len(),
        forall|node: int, k: int|
            0 <= node < incoming@.len() && 0 <= k < incoming@[node]@.len()
                ==> graph.model().depends_on(#[trigger] incoming@[node]@[k] as int, node),
        forall|dependent: int, node: int| #[trigger]
            graph.model().depends_on(dependent, node) ==> 0 <= node < incoming@.len() && 0
                <= dependent <= usize::MAX && incoming@[node]@.contains(dependent as usize),
{
    let nodes = graph.node_bound();
    let slots = graph.edge_bound();
    let ghost model = graph.model();
    proof {
        graph.lemma_well_formed();
    }
    let mut incoming: Vec<Vec<usize>> = Vec::new();
    let mut node: usize = 0;
    while node < nodes
        invariant
            node <= nodes,
            incoming@.len() == node,
            forall|v: int| 0 <= v < node ==> (#[trigger] incoming@[v])@.len() == 0,
        decreases nodes - node,
    {
        incoming.push(Vec::new());
        node += 1;
    }
    let mut slot: usize = 0;
    while slot < slots
        invariant
            graph.valid(),
            model == graph.model(),
            model.well_formed(),
            slot <= slots,
            slots == model.slots.len(),
            nodes == model.packages.len(),
            incoming@.len() == nodes,
            forall|v: int, k: int|
                0 <= v < incoming@.len() && 0 <= k < incoming@[v]@.len() ==> model.depends_on(
                    #[trigger] incoming@[v]@[k] as int,
                    v,
                ),
            forall|s: int|
                0 <= s < slot ==> (#[trigger] model.slots[s] matches Some(edge) ==> edge.target
                    < nodes && incoming@[edge.target as int]@.contains(edge.source)),
        decreases slots - slot,
    {
        match graph.edge(slot) {
            Some(edge) => {
                let ghost before = incoming@;
                incoming[edge.target].push(edge.source);
                proof {
                    assert(model.joins(slot as int, edge.source as int, edge.target as int));
                    let list = incoming@[edge.target as int]@;
                    assert(list[list.len() - 1] == edge.source);
                    assert forall|s: int| 0 <= s < slot + 1 implies (
                    #[trigger] model.slots[s] matches Some(e) ==> e.target < nodes
                        && incoming@[e.target as int]@.contains(e.source)) by {
                        if s < slot {
                            if model.slots[s] is Some {
                                let e = model.slots[s]->0;
                                let old_list = before[e.target as int]@;
                                let k = choose|k: int|
                                    0 <= k < old_list.len() && old_list[k] == e.source;
                                assert(incoming@[e.target as int]@[k] == e.source);
                            }
                        }
                    }
                }
            },
            None => {},
        }
        slot += 1;
    }
    proof {
        assert forall|dependent: int, node: int| #[trigger]
            model.depends_on(dependent, node) implies 0 <= node < incoming@.len() && 0
            <= dependent <= usize::MAX && incoming@[node]@.contains(dependent as usize) by {
            let s = choose|s: int| #[trigger] model.joins(s, dependent, node);
            assert(model.slots[s] is Some);
        }
    }
    incoming
}

/// The node is the target or depends on it, directly or through others.
pub open spec fn is_dependent(graph: GraphModel, node: int, target: int) -> bool {
    node == target || depends_through(graph, node, target)
}

/// The part of a graph that the marked nodes make up: the nodes that are
/// marked, and the edges between two of them.
pub open spec fn restricted_to(graph: GraphModel, member: Seq<bool>) -> GraphModel {
    GraphModel {
        packages: graph.packages,
        present: member,
        slots: graph.slots.map_values(
            |shown: Option<Edge>|
                match shown {
                    Some(edge) => if 0 <= edge.source < member.len() && member[edge.source as int]
                        && 0 <= edge.target < member.len() && member[edge.target as int] {
                        Some(edge)
                    } else {
                        None
                    },
                    None => None,
                },
        ),
    }
}

/// The part of a graph that depends on `target`: the target, every node that
/// depends on it directly or through others, and the edges among them.
pub open spec fn dependents_of(graph: GraphModel, target: int) -> GraphModel {
    restricted_to(
        graph,
        Seq::new(graph.packages.len(), |node: int| is_dependent(graph, node, target)),
    )
}

/// Every node that the graph joins to `node` by an edge is marked.
pub open spec fn closed_at(graph: GraphModel, member: Seq<bool>, node: int) -> bool {
    forall|dependent: int| #[trigger]
        graph.depends_on(dependent, node) ==> 0 <= dependent < member.len() && member[dependent]
}

/// What a search from `target` against the edges has found: the marked nodes
/// are those in `order`, none of them twice and the target first; each
/// reaches the target; and each but the target was found from an earlier one
/// that it depends on, its parent.
pub open spec fn search_state(
    graph: GraphModel,
    target: usize,
    member: Seq<bool>,
    order: Seq<usize>,
    parent: Seq<usize>,
) -> bool {
    &&& member.len() == graph.packages.len()
    &&& parent.len() == graph.packages.len()
    &&& target < member.len()
    &&& order.len() > 0
    &&& order[0] == target
    &&& order.no_duplicates()
    &&& forall|k: int|
        0 <= k < order.len() ==> (#[trigger] order[k]) < member.len() && member[order[k] as int]
    &&& forall|node: int|
        0 <= node < member.len() && #[trigger] member[node] ==> order.contains(node as usize)
    &&& forall|node: int|
        0 <= node < member.len() && #[trigger] member[node] ==> reaches(
            graph,
            node,
            target as int,
        )
    &&& forall|k: int|
        0 < k < order.len() ==> exists|j: int|
            0 <= j < k && #[trigger] order[j] == parent[(#[trigger] order[k]) as int]
                && graph.depends_on(order[k] as int, order[j] as int)
}

/// Distinct numbers below a bound are at most as many as the bound.
proof fn lemma_distinct_below(numbers: Seq<usize>, bound: nat)
    requires
        numbers.no_duplicates(),
        forall|k: int| 0 <= k < numbers.len() ==> (#[trigger] numbers[k]) < bound,
    ensures
        numbers.len() <= bound,
    decreases bound,
{
    if bound == 0 {
        if numbers.len() > 0 {
            assert(numbers[0] < bound);
        }
    } else if exists|k: int| 0 <= k < numbers.len() && #[trigger] numbers[k] == bound - 1 {
        let k = choose|k: int| 0 <= k < numbers.len() && #[trigger] numbers[k] == bound - 1;
        let rest = numbers.remove(k);
        assert forall|i: int| 0 <= i < rest.len() implies (#[trigger] rest[i]) < bound - 1 by {
            if i < k {
                assert(rest[i] == numbers[i]);
            } else {
                assert(rest[i] == numbers[i + 1]);
            }
        }
        assert forall|i: int, j: int|
            0 <= i < rest.len() && 0 <= j < rest.len() && i != j implies rest[i] != rest[j] by {
            let a = if i < k {
                i
            } else {
                i + 1
            };
            let b = if j < k {
                j
            } else {
                j + 1
            };
            assert(rest[i] == numbers[a]);
            assert(rest[j] == numbers[b]);
        }
        lemma_distinct_below(rest, (bound - 1) as nat);
    } else {
        lemma_distinct_below(numbers, (bound - 1) as nat);
    }
}

/// Where every marked node has all its dependents marked, whatever reaches a
/// marked node is marked.
proof fn lemma_closed_holds_paths(graph: GraphModel, member: Seq<bool>, path: Seq<int>)
    requires
        is_path(graph, path),
        0 <= path.last() < member.len(),
        member[path.last()],
        forall|node: int|
            0 <= node < member.len() && #[trigger] member[node] ==> closed_at(graph, member, node),
    ensures
        0 <= path[0] < member.len(),
        member[path[0]],
    decreases path.len(),
{
    if path.len() > 1 {
        let tail = path.drop_first();
        assert forall|i: int| 0 <= i < tail.len() - 1 implies graph.depends_on(
            #[trigger] tail[i],
            tail[i + 1],
        ) by {
            assert(tail[i] == path[i + 1]);
            assert(tail[i + 1] == path[i + 1 + 1]);
        }
        assert(tail.last() == path.last());
        lemma_closed_holds_paths(graph, member, tail);
        assert(tail[0] == path[1]);
        assert(member[path[1]]);
        assert(closed_at(graph, member, path[1]));
        assert(graph.depends_on(path[0], path[0int + 1]));
    }
}

/// A vector of `len` times `value`.
fn repeated(len: usize, value: usize) -> (numbers: Vec<usize>)
    ensures
        numbers@.len() == len,
{
    let mut numbers: Vec<usize> = Vec::new();
    let mut i: usize = 0;
    while i < len
        invariant
            i <= len,
            numbers@.len() == i,
        decreases len - i,
    {
        numbers.push(value);
        i += 1;
    }
    numbers
}

/// The part of a graph that depends on one of its nodes: the target, every
/// node that depends on it directly or through others, and the edges of the
/// graph among them. It is a view of the graph and copies no package.
///
/// It also keeps how the search found its nodes: the order of discovery, and
/// for each node but the target the node it was found from.
pub struct Subgraph<'a, G: DependencyGraph> {
    graph: &'a G,
    target: usize,
    member: Vec<bool>,
    order: Vec<usize>,
    parent: Vec<usize>,
}

impl<'a, G: DependencyGraph> Subgraph<'a, G> {
    /// The graph this is a part of.
    pub closed spec fn base(&self) -> &'a G {
        self.graph
    }

    /// The node whose dependents these are.
    pub closed spec fn root(&self) -> usize {
        self.target
    }

    /// For each node index of the base graph, whether the node belongs here.
    pub closed spec fn members(&self) -> Seq<bool> {
        self.member@
    }

    /// The nodes in the order the search found them, the target first.
    pub closed spec fn order(&self) -> Seq<usize> {
        self.order@
    }

    /// For each node found, the node it was found from. The entries of the
    /// target and of nodes that do not belong here mean nothing.
    pub closed spec fn parents(&self) -> Seq<usize> {
        self.parent@
    }

    /// The node belongs to the subgraph.
    pub open spec fn holds(&self, node: int) -> bool {
        0 <= node < self.members().len() && self.members()[node]
    }

    /// This is what the search for the dependents of `target` in `graph`
    /// gives: the nodes are the target and what depends on it, and the search
    /// tree is one of them.
    pub open spec fn holds_dependents(&self, graph: &'a G, target: usize) -> bool {
        &&& self.base() == graph
        &&& self.root() == target
        &&& self.model() == dependents_of(graph.model(), target as int)
        &&& forall|node: int| self.holds(node) <==> is_dependent(graph.model(), node, target as int)
        &&& search_state(graph.model(), target, self.members(), self.order(), self.parents())
    }

    /// The node whose dependents these are.
    pub fn target(&self) -> (target: usize)
        ensures
            target == self.root(),
    {
        self.target
    }

    /// Whether the node belongs to the subgraph.
    pub fn contains(&self, node: usize) -> (found: bool)
        ensures
            found == self.holds(node as int),
    {
        node < self.member.len() && self.member[node]
    }

    /// The nodes in the order the search found them, the target first.
    pub fn discovery_order(&self) -> (order: &Vec<usize>)
        ensures
            order@ == self.order(),
    {
        &self.order
    }

    /// The node from which the search found `node`: a member that `node`
    /// depends on by an edge. The target has none, and neither has a node
    /// outside the subgraph.
    pub fn parent_of(&self, node: usize) -> (parent: Option<usize>)
        requires
            self.valid(),
        ensures
            parent == if self.holds(node as int) && node != self.root() {
                Some(self.parents()[node as int])
            } else {
                None::<usize>
            },
    {
        if node < self.member.len() && self.member[node] && node != self.target {
            Some(self.parent[node])
        } else {
            None
        }
    }
}

impl<'a, G: DependencyGraph> DependencyGraph for Subgraph<'a, G> {
    closed spec fn valid(&self) -> bool {
        &&& self.graph.valid()
        &&& search_state(self.graph.model(), self.target, self.member@, self.order@, self.parent@)
        &&& forall|node: int|
            0 <= node < self.member@.len() && #[trigger] self.member@[node]
                ==> self.graph.model().present[node]
    }

    open spec fn model(&self) -> GraphModel {
        restricted_to(self.base().model(), self.members())
    }

    proof fn lemma_well_formed(&self) {
        self.graph.lemma_well_formed();
    }

    fn node_bound(&self) -> (bound: usize) {
        self.graph.node_bound()
    }

    fn contains_node(&self, node: usize) -> (present: bool) {
        self.member[node]
    }

    fn package(&self, node: usize) -> (package: &Package) {
        self.graph.package(node)
    }

    fn edge_bound(&self) -> (bound: usize) {
        self.graph.edge_bound()
    }

    fn edge(&self, slot: usize) -> (edge: Option<Edge>) {
        proof {
            self.graph.lemma_well_formed();
        }
        match self.graph.edge(slot) {
            Some(edge) => {
                if self.member[edge.source] && self.member[edge.target] {
                    Some(edge)
                } else {
                    None
                }
            },
            None => None,
        }
    }
}

/// The dependents of a node: the part of the graph, or of a view of one, that
/// depends on `target`.
///
/// A node belongs to the result exactly if it is the target or depends on it
/// through one or more edges. The search walks the edges against their
/// direction from the target and marks each node when it finds it, so it
/// finds every node once and ends on graphs with cycles as on others. The
/// target must be a node of the graph: a name is looked up before the search.
pub fn dependents<'a, G: DependencyGraph>(graph: &'a G, target: usize) -> (found: Subgraph<'a, G>)
    requires
        graph.valid(),
        graph.model().has_node(target as int),
    ensures
        found.valid(),
        found.holds_dependents(graph, target),
        found.holds(target as int),
{
    let ghost model = graph.model();
    proof {
        graph.lemma_well_formed();
    }
    let nodes = graph.node_bound();
    let incoming = incoming_lists(graph);
    let mut member = all_false(nodes);
    let mut parent = repeated(nodes, target);
    let mut order: Vec<usize> = Vec::new();
    let mut stack: Vec<usize> = Vec::new();
    member.set(target, true);
    order.push(target);
    stack.push(target);
    proof {
        let path = seq![target as int];
        assert(is_path(model, path) && path[0] == target && path.last() == target);
        assert(reaches(model, target as int, target as int));
        assert(order@[0] == target);
        assert(stack@[0] == target);
        assert forall|node: int| 0 <= node < member@.len() && #[trigger] member@[node] implies order@.contains(node as usize) by {
            assert(order@[0] == node as usize);
        }
        lemma_distinct_below(order@, nodes as nat);
    }
    while stack.len() > 0
        invariant
            graph.valid(),
            model == graph.model(),
            model.well_formed(),
            nodes == model.packages.len(),
            incoming@.len() == nodes,
            forall|node: int, k: int|
                0 <= node < incoming@.len() && 0 <= k < incoming@[node]@.len() ==> model.depends_on(#[trigger] incoming@[node]@[k] as int,
                    node,
                ),
            forall|dependent: int, node: int| #[trigger]
                model.depends_on(dependent, node) ==> 0 <= node < incoming@.len() && 0
                    <= dependent <= usize::MAX && incoming@[node]@.contains(dependent as usize),
            search_state(model, target, member@, order@, parent@),
            order@.len() <= nodes,
            forall|k: int| 0 <= k < stack@.len() ==> (#[trigger] stack@[k]) < nodes && member@[stack@[k] as int],
            forall|node: int|
                0 <= node < nodes && #[trigger] member@[node] ==> stack@.contains(node as usize)
                    || closed_at(model, member@, node),
            forall|node: int| 0 <= node < nodes && #[trigger] member@[node] ==> model.present[node],
        decreases 2 * (nodes - order@.len()) + stack@.len(),
    {
        let ghost stack_before = stack@;
        let ghost measure = 2 * (nodes - order@.len()) + stack@.len();
        let node = stack.pop().unwrap();
        assert(node == stack_before[stack_before.len() - 1]);
        let list = &incoming[node];
        let mut k: usize = 0;
        proof {
            assert forall|v: int| 0 <= v < nodes && #[trigger] member@[v] implies stack@.contains(v as usize) || v == node || closed_at(model, member@, v) by {
                if !closed_at(model, member@, v) && v != node {
                    let i = choose|i: int| 0 <= i < stack_before.len() && stack_before[i] == v as usize;
                    assert(stack@[i] == v as usize);
                }
            }
        }
        while k < list.len()
            invariant
                graph.valid(),
                model == graph.model(),
                model.well_formed(),
                nodes == model.packages.len(),
                incoming@.len() == nodes,
                node < nodes,
                member@[node as int],
                list@ == incoming@[node as int]@,
                k <= list@.len(),
                forall|v: int, j: int|
                    0 <= v < incoming@.len() && 0 <= j < incoming@[v]@.len() ==> model.depends_on(#[trigger] incoming@[v]@[j] as int,
                        v,
                    ),
                search_state(model, target, member@, order@, parent@),
                order@.len() <= nodes,
                2 * (nodes - order@.len()) + stack@.len() < measure,
                forall|j: int| 0 <= j < stack@.len() ==> (#[trigger] stack@[j]) < nodes && member@[stack@[j] as int],
                forall|v: int|
                    0 <= v < nodes && #[trigger] member@[v] ==> stack@.contains(v as usize) || v
                        == node || closed_at(model, member@, v),
                forall|j: int| 0 <= j < k ==> (#[trigger] list@[j]) < nodes && member@[list@[j] as int],
                forall|v: int| 0 <= v < nodes && #[trigger] member@[v] ==> model.present[v],
            decreases list@.len() - k,
        {
            let dependent = list[k];
            proof {
                assert(model.depends_on(incoming@[node as int]@[k as int] as int, node as int));
                let s = choose|s: int| #[trigger] model.joins(s, dependent as int, node as int);
                assert(model.slots[s] is Some);
                assert(model.has_node(dependent as int));
                assert(dependent < nodes);
                assert(model.present[dependent as int]);
            }
            if !member[dependent] {
                let ghost member_before = member@;
                let ghost order_before = order@;
                let ghost parent_before = parent@;
                let ghost stack_inner = stack@;
                member.set(dependent, true);
                parent.set(dependent, node);
                order.push(dependent);
                stack.push(dependent);
                proof {
                    lemma_reaches_step(model, dependent as int, node as int, target as int);
                    let last = order_before.len() as int;
                    assert(order@[last] == dependent);
                    assert(stack@[stack_inner.len() as int] == dependent);
                    // the order stays free of duplicates
                    assert forall|i: int, j: int| 0 <= i < order@.len() && 0 <= j < order@.len() && i != j implies order@[i] != order@[j] by {
                        if i < last {
                            assert(order@[i] == order_before[i]);
                            assert(member_before[order_before[i] as int]);
                        }
                        if j < last {
                            assert(order@[j] == order_before[j]);
                            assert(member_before[order_before[j] as int]);
                        }
                    }
                    assert forall|i: int| 0 <= i < order@.len() implies (#[trigger] order@[i]) < member@.len() && member@[order@[i] as int] by {
                        if i < last {
                            assert(order@[i] == order_before[i]);
                        }
                    }
                    assert forall|v: int| 0 <= v < member@.len() && #[trigger] member@[v] implies order@.contains(v as usize) by {
                        if v == dependent {
                            assert(order@[last] == v as usize);
                        } else {
                            assert(member_before[v]);
                            let i = choose|i: int| 0 <= i < order_before.len() && order_before[i] == v as usize;
                            assert(order@[i] == v as usize);
                        }
                    }
                    assert forall|v: int| 0 <= v < member@.len() && #[trigger] member@[v] implies reaches(model, v, target as int) by {
                        if v != dependent {
                            assert(member_before[v]);
                        }
                    }
                    assert forall|i: int| 0 < i < order@.len() implies exists|j: int|
                        0 <= j < i && #[trigger] order@[j] == parent@[(#[trigger] order@[i]) as int] && model.depends_on(order@[i] as int,
                            order@[j] as int,
                        ) by {
                        if i < last {
                            assert(order@[i] == order_before[i]);
                            assert(member_before[order_before[i] as int]);
                            assert(order_before[i] != dependent);
                            let j = choose|j: int|
                                0 <= j < i && #[trigger] order_before[j] == parent_before[(#[trigger] order_before[i]) as int] && model.depends_on(order_before[i] as int,
                                    order_before[j] as int,
                                );
                            assert(order@[j] == order_before[j]);
                            assert(order@[j] == parent@[order@[i] as int]);
                        } else {
                            assert(member_before[node as int]);
                            let j = choose|j: int| 0 <= j < order_before.len() && order_before[j] == node;
                            assert(order@[j] == node);
                            assert(order@[j] == parent@[order@[i] as int]);
                        }
                    }
                    assert(search_state(model, target, member@, order@, parent@));
                    lemma_distinct_below(order@, nodes as nat);
                    assert forall|j: int| 0 <= j < stack@.len() implies (#[trigger] stack@[j]) < nodes && member@[stack@[j] as int] by {
                        if j < stack_inner.len() {
                            assert(stack@[j] == stack_inner[j]);
                        }
                    }
                    assert forall|v: int| 0 <= v < nodes && #[trigger] member@[v] implies stack@.contains(v as usize) || v == node || closed_at(model, member@, v) by {
                        if v == dependent {
                            assert(stack@[stack_inner.len() as int] == v as usize);
                        } else {
                            assert(member_before[v]);
                            if stack_inner.contains(v as usize) {
                                let i = choose|i: int| 0 <= i < stack_inner.len() && stack_inner[i] == v as usize;
                                assert(stack@[i] == v as usize);
                            } else if v != node {
                                assert(closed_at(model, member_before, v));
                                assert forall|d: int| #[trigger] model.depends_on(d, v) implies 0 <= d < member@.len() && member@[d] by {
                                    assert(member_before[d]);
                                }
                            }
                        }
                    }
                    assert forall|j: int| 0 <= j < k + 1 implies (#[trigger] list@[j]) < nodes && member@[list@[j] as int] by {
                        if j < k {
                            assert(member_before[list@[j] as int]);
                        }
                    }
                }
            }
            k += 1;
        }
        proof {
            assert forall|d: int| #[trigger] model.depends_on(d, node as int) implies 0 <= d < member@.len() && member@[d] by {
                assert(incoming@[node as int]@.contains(d as usize));
                let j = choose|j: int| 0 <= j < list@.len() && list@[j] == d as usize;
                assert(member@[list@[j] as int]);
            }
            assert(closed_at(model, member@, node as int));
        }
    }
    proof {
        assert forall|node: int| 0 <= node < member@.len() && #[trigger] member@[node] implies closed_at(model, member@, node) by {
            if stack@.contains(node as usize) {
                let i = choose|i: int| 0 <= i < stack@.len() && stack@[i] == node as usize;
            }
        }
        assert forall|node: int| (0 <= node < member@.len() && member@[node]) <==> is_dependent(model, node, target as int) by {
            lemma_reaches_is_self_or_through(model, node, target as int);
            if reaches(model, node, target as int) {
                let path = choose|path: Seq<int>| #[trigger] is_path(model, path) && path[0] == node && path.last() == target as int;
                lemma_closed_holds_paths(model, member@, path);
            }
        }
    }
    let found = Subgraph { graph, target, member, order, parent };
    proof {
        assert(found.members() =~= Seq::new(
            model.packages.len(),
            |node: int| is_dependent(model, node, target as int),
        ));
    }
    found
}


} // verus!
