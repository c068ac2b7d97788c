[package]
name = "chess_egt"
version = "0.1.0"
edition = "2021"
publish = false

[dependencies]
shakmaty = "=0.29.4"
zeekstd = "=0.6.3"
sha2 = "=0.11.1"
serde = { version = "=1.0.229", features = ["derive"] }
serde_json = "=1.0.154"
clap = { version = "=4.6.7", features = ["derive"] }
thiserror = "=2.0.21"
