//! Cursor-based pagination over a sorted record collection, with a
//! time-bounded, single-flight result cache.
//!
//! A caller asks for a page with a limit and at most one of a cursor to
//! page after, a cursor to page before, or a number of records to skip.
//! The pieces, leaves first:
//!
//! - `key`: sort-key values and the strict total order on them;
//! - `cursor`: the codec between a sort-key value and its opaque token;
//! - `plan`: the planner, from a page request to the range query that
//!   the store is to run;
//! - `page`: the orchestrator, from the fetched records to the
//!   connection handed back;
//! - `cache`: the result cache, a state machine over an explicit clock;
//! - `store`: a store held in memory, and the laws of paging;
//! - `model`, `ids`, `services`, `schema`: pets and owners, and the
//!   queries on them.
//!
//! Contracts are stated over mathematical models: a sequence of parts
//! for a key value, a sequence of rows for a result set, a record of
//! sequences for the cache. The laws of the library are public proof
//! functions next to the functions they are about.

pub mod cache;
pub mod cursor;
pub mod error;
pub mod ids;
pub mod key;
pub mod model;
pub mod page;
pub mod plan;
pub mod schema;
pub mod services;
pub mod store;
