[package]
name = "corpus_pipeline"
version = "0.1.0"
edition = "2021"
publish = false

[dependencies]
itertools = "*"
serde = { version = "*", features = ["derive"] }
serde_json = "*"
warc = "*"
rayon = "*"
ungoliant = "*"
