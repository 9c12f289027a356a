use movie_facade::mapper::{to_response, SearchEnvelope, SearchHit};
use movie_facade::model::Movie;

fn movie(id: usize, title: &str, genres: &[&str]) -> Movie {
    Movie {
        id,
        title: title.to_string(),
        genres: genres.iter().map(|g| g.to_string()).collect(),
    }
}

#[test]
fn keeps_documents_in_ranking_order() {
    let env = SearchEnvelope {
        hits: vec![
            SearchHit { document: movie(6, "Philadelphia", &["Drama"]) },
            SearchHit { document: movie(1, "Carol", &["Romance", "Drama"]) },
            SearchHit { document: movie(3, "Life of Pi", &["Adventure", "Drama"]) },
        ],
    };
    let response = to_response(env);
    assert_eq!(response.movies.len(), 3);
    assert_eq!(response.movies[0], movie(6, "Philadelphia", &["Drama"]));
    assert_eq!(response.movies[1], movie(1, "Carol", &["Romance", "Drama"]));
    assert_eq!(response.movies[2], movie(3, "Life of Pi", &["Adventure", "Drama"]));
}

#[test]
fn empty_envelope_yields_empty_list() {
    let response = to_response(SearchEnvelope { hits: Vec::new() });
    assert!(response.movies.is_empty());
}

#[test]
fn single_hit_is_passed_through() {
    let env = SearchEnvelope {
        hits: vec![SearchHit { document: movie(5, "Moana", &["Fantasy", "Action"]) }],
    };
    let response = to_response(env);
    assert_eq!(response.movies, vec![movie(5, "Moana", &["Fantasy", "Action"])]);
}
