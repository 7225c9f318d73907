//! In-memory span store, derived-metric memoization, name-grouped
//! aggregation and viewport projection for an interactive trace viewer.
//! The wire front end around it lives outside the verified library.

pub mod group;
pub mod model;
pub mod server;
pub mod span;
pub mod store;
pub mod viewer;
