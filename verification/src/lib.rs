//! Bulk renaming of files through an edit of their listing.
//!
//! The user is given the paths of the files, one per line, and changes the
//! lines. Each changed line asks for a rename. The renames may form chains
//! (`a -> b`, `b -> c`) and cycles (`a -> b`, `b -> a`), so they cannot be
//! carried out in just any order without losing files. This library turns
//! the edit into steps that can be carried out one after the other:
//!
//! - [`request`] validates the edit against the listing and keeps the
//!   renames that it asks for;
//! - [`planner`] takes the renames as a graph, breaks its cycles through
//!   temporary names and orders the steps; [`plan`] says what makes steps a
//!   plan for a mapping, and [`renaming_plan`] keeps a request with its plan;
//! - [`executor`] carries the steps out, one file system operation at a time.
//!
//! The library does not touch the file system. It is told what files there
//! are, it asks whether a name is in use through a function of the caller,
//! and it hands the operations of a run to the caller and takes their
//! outcomes back.
//!
//! What a plan does to files is proved on a model of the file system, a map
//! from the paths that exist to what they hold: [`replay`] shows that a plan
//! moves every file to where it is wanted, chains and cycles included, and
//! [`run_model`] shows where a run ends, also when a destination is taken.

pub mod digraph;
pub mod error;
pub mod executor;
mod ledger;
pub mod listing;
pub mod mapping;
pub mod placeholder;
pub mod plan;
pub mod planner;
pub mod renaming_plan;
pub mod replay;
pub mod request;
pub mod run_model;
pub mod session;
pub mod text;
