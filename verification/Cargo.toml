[package]
name = "circuit_attest"
version = "0.1.0"
edition = "2021"
publish = false

[dependencies]
clap = { version = "4", default-features = false, features = ["std", "derive", "help", "usage", "error-context"] }
dotenv = "0.15"
ethers = { version = "2", default-features = false }
sha2 = "0.10"
tokio = { version = "1", features = ["macros", "rt-multi-thread"] }
walkdir = "2"
