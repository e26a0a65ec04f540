[package]
name = "deps_gen"
version = "0.1.0"
edition = "2021"
publish = false

[dependencies]
cargo_metadata = "*"
handlebars = "*"
serde = { version = "*", features = ["derive"] }
