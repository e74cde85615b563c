//! An incremental computation engine: a database that caches the results of
//! derived queries, records what each result was read from, and recomputes only
//! what a change actually affects.
//!
//! A [`System`] defines the queries; a [`Database`] stores the inputs, caches
//! the derived results and decides, by comparing [`Revision`] stamps, which of
//! them are still current; [`Stats`] counts how each resolution was served.

pub mod database;
pub mod error;
pub mod laws;
pub mod model;
pub mod revision;
pub mod runtime;
pub mod stats;
pub mod system;
pub mod text;

pub use database::Database;
pub use error::QueryError;
pub use revision::Revision;
pub use model::{Input, Memo, RuntimeView};
pub use runtime::Runtime;
pub use stats::Stats;
pub use system::System;
