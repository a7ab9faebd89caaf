[package]
name = "proccie"
version = "0.1.0"
edition = "2021"
publish = false

[dependencies]
anstream = "=1.0.0"
anstyle = "=1.0.14"
clap = { version = "=4.6.7", features = ["derive"] }
dotenvy = "=0.15.7"
humantime = "=2.4.0"
nix = { version = "=0.31.3", features = ["signal", "process", "fs"] }
ratatui = { version = "=0.30.2", features = ["unstable-rendered-line-info"] }
reqwest = { version = "=0.13.5", default-features = false }
serde = { version = "=1.0.229", features = ["derive"] }
terminal-colorsaurus = "=1.0.3"
thiserror = "=2.0.21"
tokio = { version = "=1.54.1", features = ["full"] }
tokio-util = "=0.7.20"
toml = "=1.1.8"

[dev-dependencies]
tempfile = "=3.27.0"
