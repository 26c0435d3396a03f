[package]
name = "crisp_docx"
version = "0.1.0"
edition = "2021"
publish = false

[dependencies]
quick-xml = "0.36"
zip = { version = "2", default-features = false, features = ["deflate"] }
anyhow = "1"
async-trait = "0.1"
clap = { version = "4", features = ["derive", "env"] }
futures = "0.3"
pyo3 = { version = "0.22", features = ["abi3-py38"] }
reqwest = { version = "0.12", default-features = false, features = ["json", "rustls-tls"] }
serde = { version = "1", features = ["derive"] }
serde_json = "1"
thiserror = "1"
tokio = { version = "1", features = ["rt-multi-thread", "macros"] }
tracing = "0.1"
tracing-subscriber = { version = "0.3", features = ["env-filter"] }
