[package]
name = "vector_buffers"
version = "0.1.0"
edition = "2021"
publish = false

[dependencies]
regex = "*"
glob = "*"
exitcode = "*"
once_cell = "*"
serde = { version = "*", features = ["derive"] }
serde_json = "*"
serde_yaml = "*"
toml = "*"
snafu = "*"
tracing = "*"
metrics = "*"
