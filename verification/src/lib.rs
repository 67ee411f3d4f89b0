//! An ownership-indexing oracle: mirrors token-ownership facts pushed by
//! external token-issuing contracts and serves paginated, consistent read
//! queries over the mirrored state, including the immediately prior owner
//! of any token.
//!
//! The engine keeps a primary record store and two derived secondary
//! indexes (by issuing contract, by current owner), plus a store of the
//! most recent previous owner per token.  Every mutation keeps the four
//! structures mutually consistent; the consistency statement and the
//! ingestion transition are spec functions in [`model`], and the laws that
//! hold of them are proved in [`laws`].

pub mod laws;
pub mod lemmas;
pub mod model;
pub mod oracle;
pub mod queries;
pub mod records;

pub use oracle::Oracle;
pub use records::{StorageKeys, TokenInput, TokenKey};
