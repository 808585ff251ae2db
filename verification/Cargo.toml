[package]
name = "rag_ingestion_core"
version = "0.1.0"
edition = "2021"

[dependencies]
flate2 = "=1.1.10"
lopdf = { version = "=0.46.0", default-features = false }
rstar = "=0.12.2"
serde = { version = "=1.0.229", features = ["derive"] }
serde_json = "=1.0.154"
strsim = "=0.11.1"
tokenizers = { version = "=0.15.2", default-features = false, features = ["onig"] }
