[package]
name = "neko_dedup"
version = "0.1.0"
edition = "2021"
publish = false

[dependencies]
anyhow = "*"
bincode = { version = "*", features = ["serde"] }
chrono = "*"
clap = { version = "*", features = ["derive"] }
half = "*"
hnsw_rs = "*"
image = "*"
image_hasher = "*"
infer = "*"
rayon = "*"
serde = { version = "*", features = ["derive"] }
serde_json = "*"
serde-pickle = "*"
sha1 = "*"
url = "*"
uuid = { version = "*", features = ["v4", "v5"] }
walkdir = "*"

[dev-dependencies]
rand = "*"
rand_pcg = "*"
