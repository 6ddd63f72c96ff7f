//! A persistent fact store for iterating on nixpkgs changes: the data model,
//! the eval files and their diff, the build policy and the reports over them.

pub mod cache;
pub mod cacheversion;
pub mod diff;
pub mod driver;
pub mod eval;
pub mod evalfile;
pub mod expr;
pub mod hydra;
pub mod live;
pub mod looks;
pub mod model;
pub mod ordered;
pub mod paths;
pub mod prompt;
pub mod report;
pub mod review;
pub mod runs;
pub mod shards;
pub mod store;
pub mod table;
pub mod text;
