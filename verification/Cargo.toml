[package]
name = "flats"
version = "0.1.0"
edition = "2021"
publish = false

[dependencies]
bincode = "1.3"
crc32fast = "1"
memmap2 = "0.9"
roaring = "0.10"
serde = { version = "1", features = ["derive"] }
thiserror = "1"
