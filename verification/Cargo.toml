[package]
name = "syntax_survey"
version = "0.1.0"
edition = "2021"
publish = false

[dependencies]
chrono = "=0.4.45"
uuid = { version = "=1.29.0", features = ["v4"] }
syn = { version = "=1.0.109", features = ["full", "visit"] }
quote = "=1.0.47"
proc-macro2 = { version = "=1.0.107", features = ["span-locations"] }
git2 = { version = "=0.21.0", default-features = false }
postgres = { version = "=0.19.14", features = ["with-uuid-1"] }
postgres-types = { version = "=0.2.14", features = ["derive"] }
rayon = "=1.12.0"
ignore = "=0.4.33"
clap = { version = "=4.6.7", features = ["derive"] }
humantime = "=2.4.0"
hostname = "=0.4.2"
anyhow = "1"
flate2 = "1"
tar = "0.4"
ureq = { version = "2", features = ["json"] }
csv = "1"
indicatif = "*"
serde = { version = "1", features = ["derive"] }
humantime-serde = "1"
glob = "0.3"
