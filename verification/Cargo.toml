[package]
name = "fleet_dispatch"
version = "0.1.0"
edition = "2021"
publish = false

[dependencies]
futures = "0.3"
itertools = "0.11"
ulid = "1"
tokio = { version = "1", features = ["macros", "rt-multi-thread", "time"] }
tonic = "0.10"
prost = "0.12"
log = "0.4"
env_logger = "0.10"
dotenv = "0.15"
