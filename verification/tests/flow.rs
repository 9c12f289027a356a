//! The search path of the facade, run locally: the query string is
//! translated, the backend's reply is simulated from the seed set, and the
//! envelope is mapped to the response shape.

use movie_facade::mapper::{to_response, SearchEnvelope, SearchHit};
use movie_facade::model::Movie;
use movie_facade::query::translate;

/// The seed movies whose genre list contains the decoded query text, in
/// stored order: a stand-in for the backend's reply to a genre query.
fn genre_matches(query_text: &[u8]) -> Vec<SearchHit> {
    let query = String::from_utf8(query_text.to_vec()).unwrap();
    movie_facade::gateway::seed_movies()
        .into_iter()
        .filter(|m| m.genres.iter().any(|g| *g == query))
        .map(|document| SearchHit { document })
        .collect()
}

#[test]
fn drama_query_lists_the_drama_titles_in_order() {
    let request = translate(b"q=Drama").unwrap();
    let envelope = SearchEnvelope { hits: genre_matches(&request.query_text) };
    let response = to_response(envelope);
    let titles: Vec<&str> = response.movies.iter().map(|m| m.title.as_str()).collect();
    assert_eq!(titles, vec!["Carol", "Life of Pi", "Philadelphia"]);
}

#[test]
fn unmatched_query_yields_an_empty_movie_list() {
    let request = translate(b"q=Musical").unwrap();
    let envelope = SearchEnvelope { hits: genre_matches(&request.query_text) };
    let response = to_response(envelope);
    assert!(response.movies.is_empty());
}

#[test]
fn moana_is_found_once_seeded() {
    let request = translate(b"q=Moana").unwrap();
    let query = String::from_utf8(request.query_text).unwrap();
    let hits: Vec<SearchHit> = movie_facade::gateway::seed_movies()
        .into_iter()
        .filter(|m| m.title == query)
        .map(|document| SearchHit { document })
        .collect();
    let response = to_response(SearchEnvelope { hits });
    assert_eq!(response.movies.len(), 1);
    assert_eq!(
        response.movies[0],
        Movie {
            id: 5,
            title: "Moana".to_string(),
            genres: vec!["Fantasy".to_string(), "Action".to_string()],
        }
    );
}
