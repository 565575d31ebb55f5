//! Dependency graphs over a snapshot of installed packages: which packages
//! nothing depends on, and which packages depend on a given one.
//!
//! A caller hands over the installed packages as plain records. `graph`
//! builds the graph of their dependencies, resolving each dependency through
//! `resolve` and `table`; `dependencies` holds the two analyses, which run on
//! the graph or on a view of it; `print` and `commands` turn the results into
//! text. `laws` states what holds of all of them.

pub mod ansi;
pub mod args;
pub mod commands;
pub mod dependencies;
pub mod drawing;
pub mod graph;
pub mod laws;
pub mod order;
pub mod package;
pub mod print;
pub mod reach;
pub mod resolve;
pub mod table;
