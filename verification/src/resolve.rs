//! Resolving names and dependency specifiers against the installed packages.

use vstd::prelude::*;
use crate::package::{Package, Specifier};

verus! {

/// Some installed package bears the specifier's name at a version that meets
/// its constraint.
pub open spec fn named_somewhere(specifier: &Specifier, packages: Seq<Package>) -> bool {
    exists|i: int| 0 <= i < packages.len() && specifier.names(&#[trigger] packages[i])
}

/// The package at `index` satisfies the specifier: by its own name where any
/// installed package does so, else by a capability that it provides.
pub open spec fn satisfies(specifier: &Specifier, packages: Seq<Package>, index: int) -> bool {
    &&& 0 <= index < packages.len()
    &&& if named_somewhere(specifier, packages) {
        specifier.names(&packages[index])
    } else {
        specifier.provided_by(&packages[index])
    }
}

/// The indices below `bound` of the packages that satisfy the specifier, ascending.
pub open spec fn satisfiers(specifier: &Specifier, packages: Seq<Package>, bound: nat) -> Seq<usize>
    decreases bound,
{
    if bound == 0 {
        Seq::empty()
    } else {
        let below = satisfiers(specifier, packages, (bound - 1) as nat);
        if satisfies(specifier, packages, bound - 1) {
            below.push((bound - 1) as usize)
        } else {
            below
        }
    }
}

/// `satisfiers` lists exactly the satisfying indices below the bound, each
/// once, in ascending order.
pub proof fn lemma_satisfiers(specifier: &Specifier, packages: Seq<Package>, bound: nat)
    requires
        bound <= packages.len(),
        packages.len() <= usize::MAX,
    ensures
        forall|k: int|
            0 <= k < satisfiers(specifier, packages, bound).len() ==> (#[trigger] satisfiers(
                specifier,
                packages,
                bound,
            )[k]) < bound,
        forall|j: int, k: int|
            0 <= j < k < satisfiers(specifier, packages, bound).len() ==> satisfiers(
                specifier,
                packages,
                bound,
            )[j] < satisfiers(specifier, packages, bound)[k],
        forall|i: int|
            0 <= i < bound ==> (satisfies(specifier, packages, i) <==> satisfiers(
                specifier,
                packages,
                bound,
            ).contains(i as usize)),
    decreases bound,
{
    if bound > 0 {
        let below = satisfiers(specifier, packages, (bound - 1) as nat);
        let all = satisfiers(specifier, packages, bound);
        lemma_satisfiers(specifier, packages, (bound - 1) as nat);
        let last = (bound - 1) as usize;
        assert forall|i: int| 0 <= i < bound implies (satisfies(specifier, packages, i)
            <==> all.contains(i as usize)) by {
            if satisfies(specifier, packages, bound - 1) {
                assert(all == below.push(last));
                assert(all[below.len() as int] == last);
                if i < bound - 1 {
                    if below.contains(i as usize) {
                        let k = choose|k: int| 0 <= k < below.len() && below[k] == i as usize;
                        assert(all[k] == i as usize);
                    }
                    if all.contains(i as usize) {
                        let k = choose|k: int| 0 <= k < all.len() && all[k] == i as usize;
                        assert(k < below.len());
                        assert(below[k] == i as usize);
                    }
                }
            } else {
                if i == bound - 1 && all.contains(i as usize) {
                    let k = choose|k: int| 0 <= k < all.len() && all[k] == i as usize;
                    assert(below[k] < bound - 1);
                }
            }
        }
    }
}

/// Whether some installed package bears the specifier's name at a version
/// that meets its constraint.
fn is_named_somewhere(specifier: &Specifier, packages: &Vec<Package>) -> (found: bool)
    ensures
        found == named_somewhere(specifier, packages@),
{
    let mut i: usize = 0;
    while i < packages.len()
        invariant
            i <= packages.len(),
            forall|j: int| 0 <= j < i ==> !specifier.names(&#[trigger] packages@[j]),
        decreases packages.len() - i,
    {
        if specifier.is_named_by(&packages[i]) {
            return true;
        }
        i += 1;
    }
    false
}

/// The installed packages that satisfy a dependency specifier, by index.
///
/// A package that bears the specifier's name at a fitting version is the
/// resolution. Where there is none, every package that provides a fitting
/// capability of that name is. A specifier that nothing satisfies resolves to
/// nothing.
pub fn resolve(specifier: &Specifier, packages: &Vec<Package>) -> (targets: Vec<usize>)
    ensures
        targets@ == satisfiers(specifier, packages@, packages@.len()),
{
    let literal = is_named_somewhere(specifier, packages);
    let mut targets: Vec<usize> = Vec::new();
    let mut i: usize = 0;
    while i < packages.len()
        invariant
            i <= packages.len(),
            literal == named_somewhere(specifier, packages@),
            targets@ == satisfiers(specifier, packages@, i as nat),
        decreases packages.len() - i,
    {
        let fits = if literal {
            specifier.is_named_by(&packages[i])
        } else {
            specifier.is_provided_by(&packages[i])
        };
        if fits {
            targets.push(i);
        }
        i += 1;
    }
    targets
}

/// Looks an installed package up by its literal name.
///
/// Returns the index of the first package of exactly that name, and nothing
/// where no installed package bears it. Capabilities are not consulted.
pub fn find_package(packages: &Vec<Package>, name: &String) -> (found: Option<usize>)
    ensures
        found is Some <==> exists|i: int|
            0 <= i < packages@.len() && (#[trigger] packages@[i]).name@ == name@,
        found matches Some(index) ==> {
            &&& index < packages@.len()
            &&& packages@[index as int].name@ == name@
            &&& forall|j: int| 0 <= j < index ==> (#[trigger] packages@[j]).name@ != name@
        },
{
    let mut i: usize = 0;
    while i < packages.len()
        invariant
            i <= packages.len(),
            forall|j: int| 0 <= j < i ==> (#[trigger] packages@[j]).name@ != name@,
        decreases packages.len() - i,
    {
        if packages[i].name == *name {
            return Some(i);
        }
        i += 1;
    }
    None
}

} // verus!
