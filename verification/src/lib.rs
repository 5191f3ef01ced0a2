//! A verified data layer for a small delivery-order ledger: a company
//! directory with case-insensitive get-or-create semantics, an order store,
//! a dense positional list of opened orders, an idempotent schema-lifecycle
//! model, and an analytics engine computing dashboard aggregates with exact
//! integer semantics.

use vstd::prelude::*;

pub mod dashboard;
pub mod dates;
pub mod directory;
pub mod model;
pub mod opened;
pub mod orders;
pub mod rank;
pub mod schema;
pub mod search;
pub mod seqs;
pub mod store;
pub mod text;
pub mod theme;

verus! {

/// Errors surfaced by the verified store operations.
#[derive(Clone, Copy, Debug, PartialEq, Eq, Structural)]
pub enum StoreError {
    /// An order id that no row carries.
    NotFound,
    /// A blank or whitespace-only company name where a real name is required.
    InvalidCompanyName,
    /// A write that would break a uniqueness rule of the directory.
    ConstraintViolation,
}

} // verus!
