//! Maps the search service's result envelope into the HTTP-facing response
//! shape, keeping the service's ranking order and discarding everything but
//! the document payloads.

use vstd::prelude::*;
use crate::model::{Movie, MovieResponse};

verus! {

/// One ranked match from the search service, reduced to what this layer
/// reads: the document payload. Ranking metadata, scores and highlighting
/// are discarded before an envelope is built.
pub struct SearchHit {
    pub document: Movie,
}

/// The result wrapper returned by a search operation: the matches in the
/// service's relevance order. This layer never re-sorts them.
pub struct SearchEnvelope {
    pub hits: Vec<SearchHit>,
}

/// The documents of an envelope, in order.
pub open spec fn documents_of(env: SearchEnvelope) -> Seq<Movie> {
    env.hits@.map_values(|h: SearchHit| h.document)
}

/// Converts a result envelope into the response shape: the same documents,
/// in the same order, and nothing else. Total: an empty envelope yields an
/// empty list.
pub fn to_response(env: SearchEnvelope) -> (r: MovieResponse)
    ensures
        r.movies@ == documents_of(env),
        r.movies@.len() == env.hits@.len(),
        forall|i: int| 0 <= i < env.hits@.len() ==> r.movies@[i] == env.hits@[i].document,
{
    let ghost orig = env.hits@;
    let mut hits = env.hits;
    let mut movies: Vec<Movie> = Vec::new();
    while hits.len() > 0
        invariant
            movies@.len() + hits@.len() == orig.len(),
            forall|i: int| 0 <= i < movies@.len() ==> movies@[i] == orig[i].document,
            forall|i: int| 0 <= i < hits@.len() ==> hits@[i] == orig[movies@.len() + i],
        decreases hits@.len(),
    {
        let h = hits.remove(0);
        movies.push(h.document);
    }
    proof {
        assert(movies@ =~= orig.map_values(|h: SearchHit| h.document));
    }
    MovieResponse { movies }
}

} // verus!
