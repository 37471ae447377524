//! A generic entity-mapping layer over a schemaless document store.
//!
//! Domain types implement [`Entity`](entity::Entity), which binds them to a
//! collection name and to typed [`Conditions`](entity::EntityConditions) and
//! [`Sorting`](entity::EntitySorting) vocabularies. Query builders describe a
//! lookup lazily; executing one against an [`EntityContext`](context) runs a
//! single store operation and decodes the returned documents into typed
//! records.

use vstd::prelude::*;

pub mod context;
pub mod document;
pub mod entity;
pub mod graph;
pub mod laws;
pub mod object_id;
pub mod order;
pub mod query;
pub mod record;
pub mod scalars;
pub mod services;
pub mod store;
pub mod user;

verus! {

/// Why a stored document could not be converted to its typed shape.
#[derive(Debug, Clone)]
pub enum DecodeError {
    /// A required key was absent from the document.
    MissingField(String),
    /// A key was present but held a value of the wrong kind.
    WrongType(String),
    /// A value had the right kind but an invalid content.
    InvalidValue(String),
}

/// The failure taxonomy of the entity layer.
#[derive(Debug, Clone)]
pub enum Error {
    /// A query that owes exactly one record found none.
    NotFound,
    /// A stored document could not be decoded into the expected shape.
    Decode(DecodeError),
    /// The underlying store operation itself failed.
    Store(String),
    /// The transaction commit failed after the unit of work had succeeded.
    TransactionAborted,
}

} // verus!
