[package]
name = "lunaria"
version = "0.1.0"
edition = "2021"
publish = false

[dependencies]
sha3 = "0.10"
base58 = "0.2"
bincode = "2"
rayon = "1"
pqcrypto = { version = "*", default-features = false, features = ["pqcrypto-falcon"] }
hex = "0.4"
thiserror = "*"
clap = { version = "4", features = ["derive"] }
tokio = { version = "1", features = ["macros", "rt-multi-thread"] }
tonic = "*"
prost = "*"
