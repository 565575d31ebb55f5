//! Nodes in the alphabetical order of their packages' names.

use vstd::prelude::*;
use vstd::relations::{sorted_by, total_ordering};
use vstd::seq_lib::{lemma_sorted_unique, to_multiset_build, to_multiset_insert};
use vstd::utf8::encode_utf8;
use crate::graph::DependencyGraph;
use crate::package::Package;

verus! {

/// The first sequence of bytes is a prefix of the second, or is the smaller
/// one at the first byte in which the two differ.
pub open spec fn bytes_le(first: Seq<u8>, second: Seq<u8>) -> bool
    decreases first.len(),
{
    if first.len() == 0 {
        true
    } else if second.len() == 0 {
        false
    } else if first[0] != second[0] {
        first[0] < second[0]
    } else {
        bytes_le(first.drop_first(), second.drop_first())
    }
}

/// What a package is sorted by: the bytes of its name.
pub open spec fn name_key(package: &Package) -> Seq<u8> {
    encode_utf8(package.name@)
}

/// The node `first` comes no later than the node `second`: its package's
/// name is the smaller one, byte by byte, or the names are the same and its
/// index is not the greater.
pub open spec fn comes_before(packages: Seq<Package>, first: usize, second: usize) -> bool {
    if name_key(&packages[first as int]) == name_key(&packages[second as int]) {
        first <= second
    } else {
        bytes_le(name_key(&packages[first as int]), name_key(&packages[second as int]))
    }
}

/// `comes_before` as a relation on nodes.
pub open spec fn name_order(packages: Seq<Package>) -> spec_fn(usize, usize) -> bool {
    |first: usize, second: usize| comes_before(packages, first, second)
}

/// Of two sequences of bytes one is no greater than the other.
pub proof fn lemma_bytes_le_total(first: Seq<u8>, second: Seq<u8>)
    ensures
        bytes_le(first, second) || bytes_le(second, first),
    decreases first.len(),
{
    if first.len() > 0 && second.len() > 0 && first[0] == second[0] {
        lemma_bytes_le_total(first.drop_first(), second.drop_first());
    }
}

/// Two sequences of bytes of which neither is greater are the same.
pub proof fn lemma_bytes_le_antisymmetric(first: Seq<u8>, second: Seq<u8>)
    requires
        bytes_le(first, second),
        bytes_le(second, first),
    ensures
        first == second,
    decreases first.len(),
{
    if first.len() > 0 {
        lemma_bytes_le_antisymmetric(first.drop_first(), second.drop_first());
        assert(first =~= seq![first[0]] + first.drop_first());
        assert(second =~= seq![second[0]] + second.drop_first());
    } else {
        assert(first =~= second);
    }
}

/// The order of sequences of bytes is transitive.
pub proof fn lemma_bytes_le_transitive(first: Seq<u8>, second: Seq<u8>, third: Seq<u8>)
    requires
        bytes_le(first, second),
        bytes_le(second, third),
    ensures
        bytes_le(first, third),
    decreases first.len(),
{
    if first.len() > 0 && first[0] == second[0] && second[0] == third[0] {
        lemma_bytes_le_transitive(first.drop_first(), second.drop_first(), third.drop_first());
    }
}

/// The order of nodes by name is total: any two nodes compare, and only a
/// node with itself compares both ways.
pub proof fn lemma_name_order_total(packages: Seq<Package>)
    ensures
        total_ordering(name_order(packages)),
{
    let order = name_order(packages);
    assert forall|x: usize, y: usize| #[trigger] order(x, y) && #[trigger] order(y, x) implies x
        == y by {
        if name_key(&packages[x as int]) != name_key(&packages[y as int]) {
            lemma_bytes_le_antisymmetric(
                name_key(&packages[x as int]),
                name_key(&packages[y as int]),
            );
        }
    }
    assert forall|x: usize, y: usize| #[trigger] order(x, y) || #[trigger] order(y, x) by {
        lemma_bytes_le_total(name_key(&packages[x as int]), name_key(&packages[y as int]));
    }
    assert forall|x: usize, y: usize, z: usize| #[trigger]
        order(x, y) && #[trigger] order(y, z) implies order(x, z) by {
        let a = name_key(&packages[x as int]);
        let b = name_key(&packages[y as int]);
        let c = name_key(&packages[z as int]);
        if a == b || b == c {
        } else {
            lemma_bytes_le_transitive(a, b, c);
            if a == c {
                lemma_bytes_le_antisymmetric(a, b);
            }
        }
    }
}

/// Two sequences that agree up to a place compare as what follows it.
proof fn lemma_common_prefix(first: Seq<u8>, second: Seq<u8>, len: int)
    requires
        0 <= len <= first.len(),
        len <= second.len(),
        first.take(len) == second.take(len),
    ensures
        bytes_le(first, second) == bytes_le(first.skip(len), second.skip(len)),
    decreases len,
{
    if len == 0 {
        assert(first.skip(0) =~= first);
        assert(second.skip(0) =~= second);
    } else {
        assert(first[0] == first.take(len)[0]);
        assert(second[0] == second.take(len)[0]);
        assert(first.drop_first().take(len - 1) =~= first.take(len).drop_first());
        assert(second.drop_first().take(len - 1) =~= second.take(len).drop_first());
        lemma_common_prefix(first.drop_first(), second.drop_first(), len - 1);
        assert(first.drop_first().skip(len - 1) =~= first.skip(len));
        assert(second.drop_first().skip(len - 1) =~= second.skip(len));
    }
}

/// How two names compare.
enum Place {
    Before,
    Same,
    After,
}

/// Compares two names byte by byte.
fn place_of(first: &str, second: &str) -> (place: Place)
    ensures
        place is Same <==> encode_utf8(first@) == encode_utf8(second@),
        place is After <==> !bytes_le(encode_utf8(first@), encode_utf8(second@)),
{
    let x = first.as_bytes();
    let y = second.as_bytes();
    let mut i: usize = 0;
    while i < x.len() && i < y.len()
        invariant
            i <= x@.len(),
            i <= y@.len(),
            x@ == encode_utf8(first@),
            y@ == encode_utf8(second@),
            x@.take(i as int) == y@.take(i as int),
        decreases x@.len() - i,
    {
        if x[i] != y[i] {
            proof {
                lemma_common_prefix(x@, y@, i as int);
                assert(x@.skip(i as int)[0] == x@[i as int]);
                assert(y@.skip(i as int)[0] == y@[i as int]);
            }
            if x[i] < y[i] {
                return Place::Before;
            } else {
                return Place::After;
            }
        }
        proof {
            assert(x@.take(i + 1) =~= x@.take(i as int).push(x@[i as int]));
            assert(y@.take(i + 1) =~= y@.take(i as int).push(y@[i as int]));
        }
        i += 1;
    }
    proof {
        lemma_common_prefix(x@, y@, i as int);
        if x@.len() == y@.len() {
            assert(x@.take(i as int) =~= x@);
            assert(y@.take(i as int) =~= y@);
        }
    }
    if x.len() == y.len() {
        Place::Same
    } else if x.len() < y.len() {
        Place::Before
    } else {
        Place::After
    }
}

/// Tests `comes_before` on two nodes of a graph.
fn node_comes_before<G: DependencyGraph>(graph: &G, first: usize, second: usize) -> (before: bool)
    requires
        graph.valid(),
        first < graph.model().packages.len(),
        second < graph.model().packages.len(),
    ensures
        before == comes_before(graph.model().packages, first, second),
{
    match place_of(graph.package(first).name.as_str(), graph.package(second).name.as_str()) {
        Place::Before => true,
        Place::Same => first <= second,
        Place::After => false,
    }
}

/// The nodes in the alphabetical order of their packages' names, byte by
/// byte; nodes of one name in the order of their indices.
///
/// The result holds the nodes handed in, each as often as it was handed in.
pub fn sort_by_name<G: DependencyGraph>(graph: &G, nodes: &Vec<usize>) -> (sorted: Vec<usize>)
    requires
        graph.valid(),
        forall|k: int| 0 <= k < nodes@.len() ==> (#[trigger] nodes@[k]) < graph.model().packages.len(),
    ensures
        sorted@ == nodes@.sort_by(name_order(graph.model().packages)),
        sorted_by(sorted@, name_order(graph.model().packages)),
        sorted@.to_multiset() == nodes@.to_multiset(),
{
    let ghost order = name_order(graph.model().packages);
    proof {
        lemma_name_order_total(graph.model().packages);
    }
    let mut sorted: Vec<usize> = Vec::new();
    let mut i: usize = 0;
    proof {
        assert(nodes@.take(0) =~= sorted@);
    }
    while i < nodes.len()
        invariant
            graph.valid(),
            i <= nodes@.len(),
            order == name_order(graph.model().packages),
            total_ordering(order),
            forall|k: int|
                0 <= k < nodes@.len() ==> (#[trigger] nodes@[k]) < graph.model().packages.len(),
            forall|k: int|
                0 <= k < sorted@.len() ==> (#[trigger] sorted@[k]) < graph.model().packages.len(),
            sorted_by(sorted@, order),
            sorted@.to_multiset() == nodes@.take(i as int).to_multiset(),
            sorted@.len() == i,
        decreases nodes@.len() - i,
    {
        let node = nodes[i];
        let mut place: usize = sorted.len();
        while place > 0 && !node_comes_before(graph, sorted[place - 1], node)
            invariant
                graph.valid(),
                place <= sorted@.len(),
                node < graph.model().packages.len(),
                order == name_order(graph.model().packages),
                total_ordering(order),
                forall|k: int|
                    0 <= k < sorted@.len() ==> (#[trigger] sorted@[k]) < graph.model().packages.len(),
                forall|k: int| place <= k < sorted@.len() ==> order(node, #[trigger] sorted@[k]),
            decreases place,
        {
            proof {
                assert(order(sorted@[place - 1], node) || order(node, sorted@[place - 1]));
            }
            place -= 1;
        }
        let ghost before = sorted@;
        sorted.insert(place, node);
        proof {
            assert forall|a: int, b: int| 0 <= a < b < sorted@.len() implies #[trigger] order(
                sorted@[a],
                sorted@[b],
            ) by {
                if b < place {
                    assert(order(before[a], before[b]));
                } else if b == place {
                    assert(order(before[place - 1], node));
                    if a < place - 1 {
                        assert(order(before[a], before[place - 1]));
                    }
                } else if a < place {
                    assert(order(before[a], before[b - 1]));
                } else if a == place {
                    assert(order(node, before[b - 1]));
                } else {
                    assert(order(before[a - 1], before[b - 1]));
                }
            }
            assert(nodes@.take(i + 1) =~= nodes@.take(i as int).push(node));
            to_multiset_insert(before, place as int, node);
            to_multiset_build(nodes@.take(i as int), node);
        }
        i += 1;
    }
    proof {
        assert(nodes@.take(i as int) =~= nodes@);
        nodes@.lemma_sort_by_ensures(order);
        lemma_sorted_unique(sorted@, nodes@.sort_by(order), order);
    }
    sorted
}

} // verus!
