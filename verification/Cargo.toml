[package]
name = "tgdrive"
version = "0.1.0"
edition = "2021"
publish = false

[dependencies]
anyhow = "1"
async-trait = "0.1"
clap = { version = "4", features = ["derive", "env"] }
dirs = "6"
dotenvy = "0.15"
futures = "0.3"
# grammers-crypto builds with this version, and not with the one that followed it.
glass_pumpkin = "=2.0.0-rc0"
grammers-client = { version = "=0.10.0", default-features = false }
grammers-mtsender = "=0.10.0"
grammers-session = { version = "=0.10.0", default-features = false, features = ["serde"] }
hex = "=0.4.3"
rusqlite = { version = "0.39", features = ["bundled"] }
serde = { version = "1", features = ["derive"] }
serde_json = "1"
sha2 = "=0.10.9"
thiserror = "2"
time = { version = "=0.3.55", features = ["serde", "serde-human-readable", "formatting", "parsing", "macros"] }
tokio = { version = "1", features = ["full"] }
toml = "0.9"
tracing = "0.1"
tracing-subscriber = "0.3"
uuid = { version = "=1.29.0", features = ["v4", "serde"] }
