[package]
name = "movie_facade"
version = "0.1.0"
edition = "2021"
publish = false

[dependencies]
actix-web = "4"
meilisearch-sdk = "*"
serde = { version = "1", features = ["derive"] }
