//! A verified mapping layer for a small movie-search HTTP facade.
//!
//! The library holds the logic that sits between the HTTP surface and an
//! external full-text search service: translating a raw query string into a
//! structured search request, mapping the service's result envelope into the
//! response shape, and providing the fixed seed documents, connection
//! configuration and acknowledgment messages that the endpoints use.
//! Network I/O and the HTTP server itself live outside the library.

pub mod gateway;
pub mod mapper;
pub mod model;
pub mod query;

use vstd::prelude::*;

verus! {

broadcast use vstd::string::group_string_axioms;

/// Body of the health-check endpoint's reply.
pub fn hello_body() -> (r: String)
    ensures
        r@ == "Hello world!"@,
{
    "Hello world!".to_string()
}

} // verus!
