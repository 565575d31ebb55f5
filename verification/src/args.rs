//! What a caller chooses for the two commands.

use vstd::prelude::*;

verus! {

/// Options for package graphs.
#[derive(Debug)]
pub struct GraphOptions {
    /// Ignore optional dependencies.
    pub ignore_optdepends: bool,
    /// Show less information.
    pub quiet: bool,
    /// Render the graph as dot.
    pub dot: bool,
}

/// List orphan packages.
#[derive(Debug)]
pub struct Orphans {
    pub graph_options: GraphOptions,
}

/// List packages which depend on a package.
#[derive(Debug)]
pub struct Dependents {
    /// The package whose dependents to find.
    pub package: String,
    pub graph_options: GraphOptions,
}

} // verus!
