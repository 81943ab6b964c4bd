[package]
name = "legion_prof_viewer"
version = "0.1.0"
edition = "2021"
publish = false

[dependencies]
rand = "*"
serde = { version = "*", features = ["derive"] }
ciborium = "*"
zstd = "*"
rayon = "*"
reqwest = { version = "*", features = ["blocking"] }
url = "*"
bytes = "*"
actix-web = "*"
actix-cors = "*"
env_logger = "*"
log = "*"
