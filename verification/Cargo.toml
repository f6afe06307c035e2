[package]
name = "node_extra_exporter"
version = "0.1.0"
edition = "2021"
publish = false

[dependencies]
clap = "4"
hyper = { version = "0.14", features = ["http1", "server", "tcp"] }
libc = "0.2"
tokio = { version = "1", features = ["rt"] }
