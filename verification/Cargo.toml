[package]
name = "hex_table"
version = "0.1.0"
edition = "2021"
publish = false

[dependencies]
axum = "0.8"
bumpalo = "3"
bytes = "1"
candle-core = "*"
candle-nn = "*"
clap = { version = "4", features = ["derive"] }
env_logger = "0.11"
iddqd = "*"
log = "0.4"
rand = "0.10"
rand_distr = "*"
rayon = "1"
reqwest = { version = "*", default-features = false, features = ["blocking", "json"] }
rmp-serde = "1"
serde = { version = "1", features = ["derive"] }
serde_bytes = "0.11"
serde_json = "1"
sha2 = "*"
time = { version = "0.3", features = ["formatting"] }
tokio = { version = "1", features = ["macros", "rt-multi-thread", "net"] }
tqdm = "*"
