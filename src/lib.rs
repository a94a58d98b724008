//! The search and link engine of a markdown vault, verified: reading links out of
//! note bodies, resolving and rewriting them when notes move, planning syncs of the
//! index against the disk, and the decisions of the index writer.

pub mod text;
pub mod paths;
pub mod scan;
pub mod markdown;
pub mod decode;
pub mod links;
pub mod rewrite;
pub mod notes;
pub mod sync;
pub mod query;
pub mod model;
pub mod vaults;
pub mod git;
pub mod assets;
pub mod worker;
