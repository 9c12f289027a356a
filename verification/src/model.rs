//! The data shapes that the facade moves between the HTTP surface and the
//! external search service.

use vstd::prelude::*;

verus! {

broadcast use vstd::string::group_string_axioms;

/// A searchable record: the unit that is indexed by, and returned from, the
/// external search service.
#[derive(Debug, PartialEq, Eq)]
pub struct Movie {
    /// Unique, stable identifier; the primary key for upserts.
    pub id: usize,
    pub title: String,
    pub genres: Vec<String>,
}

/// Says that a movie carries exactly the given field values.
pub open spec fn movie_is(m: Movie, id: int, title: Seq<char>, genres: Seq<Seq<char>>) -> bool {
    &&& m.id == id
    &&& m.title@ == title
    &&& m.genres@.map_values(|g: String| g@) == genres
}

/// A structured search request: the free-text query term, held verbatim as
/// the bytes that URL-decoding produced.
pub struct SearchRequest {
    pub query_text: Vec<u8>,
}

/// The response shape of the search endpoint: the matched documents in the
/// service's ranking order.
pub struct MovieResponse {
    pub movies: Vec<Movie>,
}

/// A client-side input fault: the incoming query string does not determine a
/// single search term. Surfaced as an HTTP 4xx response.
#[derive(Debug, Clone, Copy, PartialEq, Eq, Structural)]
pub enum ClientInputError {
    /// No `q` parameter was present in the query string.
    MissingQuery,
    /// More than one `q` parameter was present in the query string.
    DuplicateQuery,
}

impl ClientInputError {
    /// A human-readable description of the fault, for the error response body.
    pub fn message(&self) -> (r: String)
        ensures
            *self == ClientInputError::MissingQuery ==> r@ == "missing query parameter `q`"@,
            *self == ClientInputError::DuplicateQuery ==> r@ == "duplicate query parameter `q`"@,
    {
        match self {
            ClientInputError::MissingQuery => "missing query parameter `q`".to_string(),
            ClientInputError::DuplicateQuery => "duplicate query parameter `q`".to_string(),
        }
    }
}

} // verus!
