[package]
name = "kaiki"
version = "0.1.0"
edition = "2021"
publish = false

[dependencies]
xxhash-rust = { version = "=0.8.19", features = ["xxh3"] }
image = { version = "=0.25.10", default-features = false, features = ["png", "jpeg", "gif", "bmp", "tiff"] }
flate2 = "=1.1.10"
mime_guess = "=2.0.5"
serde = { version = "=1.0.229", features = ["derive"] }
serde_json = "=1.0.154"
thiserror = "=2.0.21"
clap = { version = "=4.6.7", features = ["derive"] }
tokio = { version = "=1.54.1", features = ["rt-multi-thread", "fs", "sync"] }
tracing = "=0.1.44"
tracing-subscriber = "=0.3.23"
dialoguer = { version = "=0.11.0", default-features = false }
mimalloc = { version = "=0.1.52", default-features = false }
reqwest = { version = "=0.12.28", default-features = false, features = ["json", "blocking", "rustls-tls", "multipart"] }
aws-config = { version = "=1.13.0", default-features = false, features = ["rt-tokio", "default-https-client"] }
aws-sdk-s3 = { version = "=1.157.0", default-features = false, features = ["rt-tokio", "default-https-client"] }
gix = { version = "=0.90.0", default-features = false, features = ["sha1"] }
walkdir = "=2.5.0"
rayon = "=1.12.0"
cargo_metadata = "=0.23.1"
toml_edit = "=0.25.17"
