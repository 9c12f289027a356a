use movie_facade::model::ClientInputError;
use movie_facade::query::translate;

fn query_of(qs: &[u8]) -> Vec<u8> {
    translate(qs).expect("expected a successful translation").query_text
}

fn error_of(qs: &[u8]) -> ClientInputError {
    match translate(qs) {
        Ok(_) => panic!("expected translation to fail"),
        Err(e) => e,
    }
}

#[test]
fn extracts_plain_text() {
    assert_eq!(query_of(b"q=Drama"), b"Drama".to_vec());
}

#[test]
fn decodes_percent_escapes() {
    assert_eq!(query_of(b"q=Life%20of%20Pi"), b"Life of Pi".to_vec());
    assert_eq!(query_of(b"q=%4D%6fana"), b"Moana".to_vec());
}

#[test]
fn decodes_plus_as_space() {
    assert_eq!(query_of(b"q=Mad+Max"), b"Mad Max".to_vec());
}

#[test]
fn invalid_escape_passes_through() {
    assert_eq!(query_of(b"q=%zz"), b"%zz".to_vec());
    assert_eq!(query_of(b"q=100%"), b"100%".to_vec());
    assert_eq!(query_of(b"q=%4"), b"%4".to_vec());
}

#[test]
fn empty_value_is_extracted() {
    assert_eq!(query_of(b"q"), Vec::<u8>::new());
    assert_eq!(query_of(b"q="), Vec::<u8>::new());
}

#[test]
fn finds_q_among_other_pairs() {
    assert_eq!(query_of(b"limit=5&q=Drama&sort=asc"), b"Drama".to_vec());
}

#[test]
fn skips_empty_segments() {
    assert_eq!(query_of(b"&&q=Carol&&"), b"Carol".to_vec());
}

#[test]
fn decodes_the_key_too() {
    assert_eq!(query_of(b"%71=x"), b"x".to_vec());
}

#[test]
fn value_keeps_later_equals_signs() {
    assert_eq!(query_of(b"q=a=b"), b"a=b".to_vec());
}

#[test]
fn missing_q_fails() {
    assert_eq!(error_of(b""), ClientInputError::MissingQuery);
    assert_eq!(error_of(b"genre=Drama"), ClientInputError::MissingQuery);
    assert_eq!(error_of(b"Q=Drama"), ClientInputError::MissingQuery);
}

#[test]
fn key_with_trailing_space_is_not_q() {
    assert_eq!(error_of(b"q+=x"), ClientInputError::MissingQuery);
}

#[test]
fn duplicate_q_fails() {
    assert_eq!(error_of(b"q=a&q=b"), ClientInputError::DuplicateQuery);
    assert_eq!(error_of(b"q=a&other=1&q=a"), ClientInputError::DuplicateQuery);
}

#[test]
fn error_messages_describe_the_fault() {
    assert_eq!(
        ClientInputError::MissingQuery.message(),
        "missing query parameter `q`"
    );
    assert_eq!(
        ClientInputError::DuplicateQuery.message(),
        "duplicate query parameter `q`"
    );
}
