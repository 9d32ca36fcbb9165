[package]
name = "toml_sort"
version = "0.1.0"
edition = "2021"
publish = false

[dependencies]
colored = "*"
serde = { version = "*", features = ["derive"] }
structopt = "0.3"
toml = "*"
toml_edit = "*"
