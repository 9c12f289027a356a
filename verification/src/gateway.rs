//! Connection configuration for the external search service, the fixed seed
//! document set, and the acknowledgment sent after an upsert. The network
//! calls themselves happen outside the library; this module pins down every
//! value they are given.

use vstd::prelude::*;
use crate::model::{movie_is, Movie};

verus! {

broadcast use vstd::string::group_string_axioms;

/// The connection parameters of the search backend: where it listens, the
/// credential to present, and the index that this facade works against.
pub struct GatewayConfig {
    pub service_address: String,
    pub access_credential: String,
    pub index_name: String,
}

impl GatewayConfig {
    /// The configuration the facade ships with: a local search backend and
    /// the `movies` index.
    pub fn default_config() -> (r: GatewayConfig)
        ensures
            r.service_address@ == "http://localhost:7700"@,
            r.access_credential@ == "masterKey"@,
            r.index_name@ == "movies"@,
    {
        GatewayConfig {
            service_address: "http://localhost:7700".to_string(),
            access_credential: "masterKey".to_string(),
            index_name: "movies".to_string(),
        }
    }
}

/// The document field that upserts declare as the primary key.
pub fn primary_key_field() -> (r: String)
    ensures
        r@ == "id"@,
{
    "id".to_string()
}

/// Body of the acknowledgment returned once the seed documents have been
/// submitted for indexing.
pub fn added_message() -> (r: String)
    ensures
        r@ == "Movies have been added."@,
{
    "Movies have been added.".to_string()
}

/// Body of the generic error response used when a call to the search backend
/// fails: surfaced as an HTTP 5xx response instead of aborting the request.
pub fn upstream_failure_message() -> (r: String)
    ensures
        r@ == "search service unavailable"@,
{
    "search service unavailable".to_string()
}

/// The fixed six-document seed set that the add endpoint submits for
/// indexing, pinned record by record.
pub fn seed_movies() -> (r: Vec<Movie>)
    ensures
        r@.len() == 6,
        movie_is(r@[0], 1, "Carol"@, seq!["Romance"@, "Drama"@]),
        movie_is(r@[1], 2, "Wonder Woman"@, seq!["Action"@, "Adventure"@]),
        movie_is(r@[2], 3, "Life of Pi"@, seq!["Adventure"@, "Drama"@]),
        movie_is(r@[3], 4, "Mad Max"@, seq!["Adventure"@, "Science Fiction"@]),
        movie_is(r@[4], 5, "Moana"@, seq!["Fantasy"@, "Action"@]),
        movie_is(r@[5], 6, "Philadelphia"@, seq!["Drama"@]),
{
    let m0 = Movie {
        id: 1,
        title: "Carol".to_string(),
        genres: vec!["Romance".to_string(), "Drama".to_string()],
    };
    let m1 = Movie {
        id: 2,
        title: "Wonder Woman".to_string(),
        genres: vec!["Action".to_string(), "Adventure".to_string()],
    };
    let m2 = Movie {
        id: 3,
        title: "Life of Pi".to_string(),
        genres: vec!["Adventure".to_string(), "Drama".to_string()],
    };
    let m3 = Movie {
        id: 4,
        title: "Mad Max".to_string(),
        genres: vec!["Adventure".to_string(), "Science Fiction".to_string()],
    };
    let m4 = Movie {
        id: 5,
        title: "Moana".to_string(),
        genres: vec!["Fantasy".to_string(), "Action".to_string()],
    };
    let m5 = Movie {
        id: 6,
        title: "Philadelphia".to_string(),
        genres: vec!["Drama".to_string()],
    };
    proof {
        assert(m0.genres@.map_values(|g: String| g@) =~= seq!["Romance"@, "Drama"@]);
        assert(m1.genres@.map_values(|g: String| g@) =~= seq!["Action"@, "Adventure"@]);
        assert(m2.genres@.map_values(|g: String| g@) =~= seq!["Adventure"@, "Drama"@]);
        assert(m3.genres@.map_values(|g: String| g@) =~= seq!["Adventure"@, "Science Fiction"@]);
        assert(m4.genres@.map_values(|g: String| g@) =~= seq!["Fantasy"@, "Action"@]);
        assert(m5.genres@.map_values(|g: String| g@) =~= seq!["Drama"@]);
    }
    vec![m0, m1, m2, m3, m4, m5]
}

} // verus!
