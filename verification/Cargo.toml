[package]
name = "fractatoe"
version = "0.1.0"
edition = "2021"
publish = false

[dependencies]
rand = "0.8"
rand_seeder = "0.2"
num = "0.4"
serde = "1"
serde_derive = "1"
serde_json = "1"
argh = "0.1"
anyhow = "1"
log = "0.4"
env_logger = "0.10"
png = "0.17"
