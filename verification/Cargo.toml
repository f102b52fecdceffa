[package]
name = "flight_network_planner"
version = "0.1.0"
edition = "2021"
publish = false

[dependencies]
itertools = "=0.15.0"
regex = "=1.13.1"
anyhow = "=1.0.104"
clap = { version = "=4.6.7", features = ["derive"] }
clap_complete_command = "=0.6.1"
patharg = "=0.4.1"
pretty_env_logger = "=0.5.0"
log = "=0.4.35"
serde = { version = "=1.0.229", features = ["derive"] }
serde_yaml = "=0.9.34"
gatelogue-types = "=3.1.5"
ureq = "3"
