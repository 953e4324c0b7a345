[package]
name = "frank_wolfe"
version = "0.1.0"
edition = "2021"
publish = false

[dependencies]
rustc-hash = "=2.1.3"
accurate = "=0.4.1"
clap = { version = "=4.6.7", features = ["derive"] }
clap_derive = "=4.6.7"
env_logger = "=0.11.11"
itertools = "=0.15.0"
log = "=0.4.35"
ordered-float = "=5.5.1"
priority-queue = "=2.7.0"
rayon = "=1.12.0"
serde = { version = "=1.0.229", features = ["derive"] }
thread_local = "=1.1.10"
csv = "=1.4.0"
sqlite = { version = "*", default-features = false, features = ["bundled"] }
