[package]
name = "dup_checker"
version = "0.1.0"
edition = "2021"
publish = false

[dependencies]
anyhow = "*"
dirs = "*"
dotenvy = "*"
# Not used directly: pins the version grammers-crypto 0.10.0 builds with
# (its "2.0.0-rc0" requirement otherwise resolves to the incompatible rc1).
glass_pumpkin = "=2.0.0-rc0"
grammers-client = "=0.10.0"
grammers-session = "=0.10.0"
grammers-tl-types = "=0.10.0"
serde = { version = "*", features = ["derive"] }
serde_json = "*"
tokio = { version = "*", features = ["full"] }
tracing = "*"
tracing-subscriber = "*"
