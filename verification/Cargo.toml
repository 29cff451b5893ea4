[package]
name = "timeline"
version = "0.1.0"
edition = "2021"
publish = false

[dependencies]
anyhow = "1"
thiserror = "2"
serde = { version = "1", features = ["derive"] }
serde_json = "1"
clap = { version = "4", features = ["derive"] }
tracing = "0.1"
tracing-subscriber = { version = "0.3", features = ["env-filter"] }
hound = "3"
symphonia = "0.5"
realfft = "3"
rayon = "1"
tempfile = "3"
tokio = { version = "1", features = ["rt", "macros"] }
reqwest = { version = "0.12", features = ["json"] }
async-trait = "0.1"
libsql = { version = "*", default-features = false, features = ["core"] }
ort = "2.0.0-rc.9"
