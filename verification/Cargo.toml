[package]
name = "todo_plan"
version = "0.1.0"
edition = "2021"
publish = false

[dependencies]
pulldown-cmark = { version = "0.13", default-features = false }
indexmap = "2"
thiserror = "2"
anyhow = "1"
fs-err = "3"
clap = { version = "4", features = ["derive"] }
itertools = "0.14"
