[package]
name = "rustdoc_seeker"
version = "0.1.0"
edition = "2021"
publish = false

[dependencies]
fst = { version = "=0.3.5", default-features = false }
fst-levenshtein = "=0.3.0"
fst-regex = "=0.3.0"
quick-js = { version = "=0.4.1", default-features = false }
serde = { version = "=1.0.229", features = ["derive"] }
serde_derive = "=1.0.229"
serde_json = "=1.0.154"
string_cache = "=0.11.0"
