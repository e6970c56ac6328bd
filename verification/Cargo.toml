[package]
name = "omoya"
version = "0.1.0"
edition = "2021"
publish = false

[dependencies]
awase = "*"
hairetsu = "*"
irodori = "*"
ishou-tokens = "*"
kukaku = "*"
mekuri = "*"
nuri = "*"
kanshou = "*"
xkeysym = "*"
serde = { version = "1", features = ["derive"] }
serde_json = "1"
thiserror = "*"
rustix = { version = "*", features = ["net"] }
tracing = "0.1"

[dev-dependencies]
serde_yaml = "*"
