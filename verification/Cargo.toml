[package]
name = "rust_code_scaner"
version = "0.1.0"
edition = "2021"
publish = false

[dependencies]
tree-sitter = "*"
tree-sitter-python = "*"
thiserror = "*"
clap = { version = "4", features = ["derive"] }
dotenv = "*"
tokio = { version = "1", features = ["macros", "rt-multi-thread"] }
tracing = "*"
tracing-subscriber = "*"
deadpool-postgres = { version = "*", features = ["serde"] }
tokio-postgres = "*"
config = { version = "*", default-features = false }
serde = { version = "1", features = ["derive"] }
chrono = "*"
