[package]
name = "territory"
version = "0.1.0"
edition = "2021"
publish = false

[dependencies]
base16ct = { version = "=1.0.0", features = ["alloc"] }
clap = { version = "*", features = ["derive"] }
env_logger = "*"
flate2 = "=1.1.10"
futures = "*"
lazy_static = "*"
log = "*"
ndarray = "*"
ndarray-npy = "*"
once_cell = "*"
rand = "*"
serde = { version = "*", features = ["derive"] }
serde_json = "*"
sha2 = "*"
tokio = { version = "*", features = ["macros", "rt-multi-thread", "sync", "time"] }
warp = { version = "=0.4.3", features = ["server", "websocket"] }
