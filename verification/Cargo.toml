[package]
name = "serde_6570"
version = "0.1.0"
edition = "2021"
publish = false

[dependencies]
axum = { version = "0.7", default-features = false, features = ["original-uri", "matched-path"] }
hyper = "1"
iri-string = "0.7"
percent-encoding = "2"
regex = "1"
serde = { version = "1", features = ["derive"] }
thiserror = "2"
typemap-ors = "1"
