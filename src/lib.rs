//! A browsable model of a change-tracking repository: identifier encoding,
//! a revision query language over the commit graph, graph annotation, a
//! line-level diff engine and working-copy mutations.

pub mod text;
pub mod codec;
pub mod repo;
pub mod revset;
pub mod parse;
pub mod graph;
pub mod annotate;
pub mod log;
pub mod diff;
pub mod mutation;
pub mod status;
pub mod layout;
pub mod workspace;
pub mod diff_view;
