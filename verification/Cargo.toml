[package]
name = "hip"
version = "0.1.0"
edition = "2021"
publish = false

[dependencies]
anyhow = "1"
bytes = "1"
clap = { version = "4", features = ["derive"] }
dialoguer = "*"
futures-util = "0.3"
globset = "0.4"
ignore = "0.4"
libc = "0.2"
once_cell = "1"
regex = "1"
reqwest = { version = "0.12", default-features = false, features = ["json", "stream"] }
rustyline = "*"
serde = { version = "1", features = ["derive"] }
serde_json = "1"
shellexpand = "3"
terminal_size = "*"
tokio = { version = "1", features = ["rt-multi-thread", "macros", "io-std", "io-util", "time", "process", "fs"] }
walkdir = "2"
