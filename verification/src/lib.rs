//! Counts the unsafe code in a crate and in the crates it depends on, and lays
//! the counts out as a dependency tree.

pub mod count;
pub mod dep_info;
pub mod executor;
pub mod graph;
pub mod options;
pub mod paths;
pub mod platform;
pub mod report;
pub mod rs_files;
pub mod scan;
pub mod syntax;
pub mod table;
pub mod text;
pub mod tokens;
pub mod tree;
pub mod tree_laws;
pub mod visitor;
pub mod visitor_laws;
