use movie_facade::gateway::{
    added_message, primary_key_field, seed_movies, upstream_failure_message, GatewayConfig,
};
use movie_facade::hello_body;

#[test]
fn hello_endpoint_body() {
    assert_eq!(hello_body(), "Hello world!");
}

#[test]
fn add_acknowledgment_body() {
    assert_eq!(added_message(), "Movies have been added.");
}

#[test]
fn upstream_failure_body() {
    assert_eq!(upstream_failure_message(), "search service unavailable");
}

#[test]
fn default_configuration() {
    let config = GatewayConfig::default_config();
    assert_eq!(config.service_address, "http://localhost:7700");
    assert_eq!(config.access_credential, "masterKey");
    assert_eq!(config.index_name, "movies");
}

#[test]
fn upsert_primary_key() {
    assert_eq!(primary_key_field(), "id");
}

#[test]
fn seed_set_holds_the_six_movies() {
    let movies = seed_movies();
    assert_eq!(movies.len(), 6);
    let expected: Vec<(usize, &str, Vec<&str>)> = vec![
        (1, "Carol", vec!["Romance", "Drama"]),
        (2, "Wonder Woman", vec!["Action", "Adventure"]),
        (3, "Life of Pi", vec!["Adventure", "Drama"]),
        (4, "Mad Max", vec!["Adventure", "Science Fiction"]),
        (5, "Moana", vec!["Fantasy", "Action"]),
        (6, "Philadelphia", vec!["Drama"]),
    ];
    for (movie, (id, title, genres)) in movies.iter().zip(expected.iter()) {
        assert_eq!(movie.id, *id);
        assert_eq!(movie.title, *title);
        assert_eq!(movie.genres, *genres);
    }
}

#[test]
fn seed_set_tags_the_drama_titles() {
    let movies = seed_movies();
    let drama_titles: Vec<&str> = movies
        .iter()
        .filter(|m| m.genres.iter().any(|g| g == "Drama"))
        .map(|m| m.title.as_str())
        .collect();
    assert_eq!(drama_titles, vec!["Carol", "Life of Pi", "Philadelphia"]);
}

#[test]
fn seed_set_contains_moana() {
    let movies = seed_movies();
    assert!(movies.iter().any(|m| m.title == "Moana" && m.id == 5));
}
