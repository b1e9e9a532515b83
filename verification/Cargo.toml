[package]
name = "chunk_store"
version = "0.1.0"
edition = "2021"
publish = false

[dependencies]
hex = "*"
fs2 = "*"

[dev-dependencies]
rand = "*"
maidsafe_utilities = "*"
bincode = "1"
