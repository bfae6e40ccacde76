[package]
name = "slopgraph"
version = "0.1.0"
edition = "2021"
publish = false

[dependencies]
clap = { version = "=4.6.7", features = ["derive"] }
colored = "=3.1.1"
oxc = { version = "=0.143.0", features = ["ast_visit", "semantic"] }
oxc_resolver = "=11.24.3"
serde = { version = "=1.0.229", features = ["derive"] }
serde_json = "=1.0.154"
thiserror = "=2.0.21"
walkdir = "=2.5.0"
