[package]
name = "corset"
version = "0.1.0"
edition = "2021"
publish = false

[dependencies]
pairing_ce = "0.28"
num-bigint = "0.4"
num-traits = "0.2"
names = { version = "*", default-features = false }
serde = { version = "1", features = ["derive"] }
serde_json = "1"
rayon = "1"
pest = "2"
pest_derive = "2"
clap = { version = "4", features = ["derive", "cargo"] }
clap-verbosity-flag = "2"
buche = "*"
flate2 = "1"
is-terminal = "0.4"
ron = "*"
anyhow = "1"
log = "0.4"
