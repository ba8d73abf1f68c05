//! A recursive file finder with a hidden-entry filter and an editor hand-off.
//!
//! The library holds the decisions of the tool: how command-line arguments
//! become a configuration, how a directory walk proceeds from one directory
//! listing to the next, and how an editor command line is assembled and its
//! exit judged. Reading directories and running processes is left to the
//! caller, who hands the library plain values.

pub mod text;
pub mod config;
pub mod flags;
pub mod launcher;
pub mod laws;
pub mod reach;
pub mod report;
pub mod routes;
pub mod snapshot;
pub mod traversal;
pub mod walker;
