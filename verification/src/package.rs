//! The package records a directory of installed packages hands over.

use vstd::prelude::*;

verus! {

/// How a dependency specifier restricts the version of what satisfies it.
///
/// Versions are plain strings here. An `Equal` constraint is met by exactly
/// the version string it names. The range constraints are carried along but
/// held to be met by every version: ordering version numbers is the business
/// of the package directory, which admitted the installed packages under them.
#[derive(Debug, Clone, PartialEq, Eq)]
pub enum VersionConstraint {
    Any,
    Equal(String),
    GreaterOrEqual(String),
    LessOrEqual(String),
    Greater(String),
    Less(String),
}

/// A reference to a dependency target: a name, literal or virtual, with a
/// constraint on the version.
#[derive(Debug, Clone, PartialEq, Eq)]
pub struct Specifier {
    pub name: String,
    pub constraint: VersionConstraint,
}

/// A virtual name that a package provides, with the version it provides it at.
#[derive(Debug, Clone, PartialEq, Eq)]
pub struct Capability {
    pub name: String,
    pub version: Option<String>,
}

/// One installed package.
#[derive(Debug, Clone, PartialEq, Eq)]
pub struct Package {
    pub name: String,
    pub version: String,
    pub depends: Vec<Specifier>,
    pub optdepends: Vec<Specifier>,
    pub provides: Vec<Capability>,
}

impl VersionConstraint {
    /// Whether a candidate with the given version, if it has one, meets the constraint.
    pub open spec fn admits(&self, version: Option<Seq<char>>) -> bool {
        match self {
            VersionConstraint::Equal(wanted) => version == Some(wanted@),
            _ => true,
        }
    }

    /// Tests the constraint against the version of a candidate.
    pub fn is_met_by(&self, version: Option<&String>) -> (met: bool)
        ensures
            met == self.admits(
                match version {
                    Some(v) => Some(v@),
                    None => None,
                },
            ),
    {
        match self {
            VersionConstraint::Equal(wanted) => match version {
                Some(v) => *v == *wanted,
                None => false,
            },
            _ => true,
        }
    }
}

impl Capability {
    /// The provided version as a sequence of characters, if there is one.
    pub open spec fn version_text(&self) -> Option<Seq<char>> {
        match self.version {
            Some(v) => Some(v@),
            None => None,
        }
    }
}

impl Specifier {
    /// A specifier that any version of `name` satisfies.
    pub fn new(name: String) -> (specifier: Specifier)
        ensures
            specifier.name == name,
            specifier.constraint == VersionConstraint::Any,
    {
        Specifier { name, constraint: VersionConstraint::Any }
    }

    /// The package bears the specifier's name and its version meets the constraint.
    pub open spec fn names(&self, package: &Package) -> bool {
        package.name@ == self.name@ && self.constraint.admits(Some(package.version@))
    }

    /// The capability bears the specifier's name and its version meets the constraint.
    pub open spec fn matches(&self, capability: &Capability) -> bool {
        capability.name@ == self.name@ && self.constraint.admits(capability.version_text())
    }

    /// The package provides a capability that matches the specifier.
    pub open spec fn provided_by(&self, package: &Package) -> bool {
        exists|k: int| 0 <= k < package.provides.len() && self.matches(&#[trigger] package.provides[k])
    }

    /// Tests `names`.
    pub fn is_named_by(&self, package: &Package) -> (named: bool)
        ensures
            named == self.names(package),
    {
        package.name == self.name && self.constraint.is_met_by(Some(&package.version))
    }

    /// Tests `provided_by`.
    pub fn is_provided_by(&self, package: &Package) -> (provided: bool)
        ensures
            provided == self.provided_by(package),
    {
        let mut k: usize = 0;
        while k < package.provides.len()
            invariant
                k <= package.provides.len(),
                forall|j: int| 0 <= j < k ==> !self.matches(&#[trigger] package.provides[j]),
            decreases package.provides.len() - k,
        {
            let capability = &package.provides[k];
            if capability.name == self.name && self.constraint.is_met_by(capability.version.as_ref()) {
                return true;
            }
            k += 1;
        }
        false
    }
}

} // verus!
