[package]
name = "blobfetch"
version = "0.1.0"
edition = "2021"
publish = false

[dependencies]
azure_identity = "0.21"
azure_storage = "0.21"
azure_storage_blobs = "0.21"
clap = { version = "4", features = ["derive", "env"] }
futures = "0.3"
indicatif = "0.17"
opener = "0.7"
serde = { version = "1", features = ["derive"] }
time = "0.3"
tokio = { version = "1", features = ["macros", "rt-multi-thread"] }
