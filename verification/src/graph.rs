//! The root query and mutation types the consumer layer (GraphQL, HTTP —
//! outside this crate) hangs its resolvers on.

use vstd::prelude::*;

verus! {

/// The read root: the consumer layer attaches its lookup resolvers here.
#[derive(Debug, Clone, Copy, PartialEq, Eq, Structural)]
pub struct Query;

impl Query {
    /// The read root.
    pub fn new() -> (r: Query)
        ensures
            r == (Query),
    {
        Query
    }
}

impl Default for Query {
    fn default() -> (r: Query)
        ensures
            r == (Query),
    {
        Query::new()
    }
}

/// The write root: the consumer layer attaches its mutation resolvers
/// here.
#[derive(Debug, Clone, Copy, PartialEq, Eq, Structural)]
pub struct Mutation;

impl Mutation {
    /// The write root.
    pub fn new() -> (r: Mutation)
        ensures
            r == (Mutation),
    {
        Mutation
    }
}

impl Default for Mutation {
    fn default() -> (r: Mutation)
        ensures
            r == (Mutation),
    {
        Mutation::new()
    }
}

} // verus!
