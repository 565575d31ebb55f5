[package]
name = "pacgraph"
version = "0.1.0"
edition = "2021"
publish = false

[dependencies]
alpm = "*"
alpm-utils = "*"
anstream = "*"
anstyle = "1"
clap = { version = "4", features = ["derive"] }
clap_complete = "4"
petgraph = "*"
tracing = "0.1"
tracing-subscriber = "0.3"
