//! crap4rust: the CRAP metric for Rust cargo workspaces.

pub mod cli;
pub mod complexity;
pub mod coverage;
pub mod diagnostic;
pub mod filter;
pub mod join;
pub mod json;
pub mod modgraph;
pub mod order;
pub mod path;
pub mod product;
pub mod report;
pub mod runner;
pub mod syntax;
pub mod text;
pub mod workspace;
