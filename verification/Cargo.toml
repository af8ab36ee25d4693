[package]
name = "astra_lite"
version = "0.1.0"
edition = "2021"
publish = false

[dependencies]
anyhow = "=1.0.104"
bitstream-io = "=2.6.0"
chrono = "=0.4.45"
dirs = "=5.0.1"
once_cell = "=1.21.4"
rayon = "=1.12.0"
regex = "=1.13.1"
serde = { version = "=1.0.229", features = ["derive"] }
serde_json = "=1.0.154"
xmltree = { version = "=0.12.0", features = ["attribute-sorted"] }
