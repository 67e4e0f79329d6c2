[package]
name = "uurs24"
version = "1.0.0"
edition = "2021"
publish = false

[dependencies]
petgraph = "=0.8.3"
csv = "=1.4.0"
serde = { version = "=1.0.229", features = ["derive"] }
serde_json = "=1.0.154"
clap = "=4.6.7"
svg = "=0.18.0"
tera = { version = "=2.4.0", features = ["glob_fs"] }
tokio = { version = "=1.54.1", features = ["macros", "rt-multi-thread"] }
warp = { version = "=0.4.3", features = ["server"] }
chrono = "=0.4.45"
