//! Commit-graph layout for a Git history viewer: the data model of a
//! positioned commit graph, the lane assignment that places each commit in a
//! column, the edges between commits and their parents, the labelling of
//! commits with references, and the small pieces of view state around them.

pub mod graph;
pub mod layout;
pub mod laws;
pub mod walk;
pub mod walk_laws;
pub mod ui;
pub mod canvas;
