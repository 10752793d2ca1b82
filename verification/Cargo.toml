[package]
name = "little_a_map"
version = "0.14.0"
edition = "2021"
publish = false

[dependencies]
anyhow = "1"
askama = "0.12"
bincode = "1"
fastanvil = "*"
fastnbt = "2"
flate2 = "1"
glob = "0.3"
indicatif = "0.17"
log = "0.4"
paw = "1"
png = "0.17"
rayon = "1"
semver = "1"
serde = { version = "1", features = ["derive"] }
serde_json = "1"
structopt = "0.3"
webp = "0.3"
zstd = "0.13"
