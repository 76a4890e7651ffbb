[package]
name = "italic"
version = "0.1.0"
edition = "2021"
publish = false

[dependencies]
anyhow = "1"
bytes = "1"
chrono = "0.4"
clap = { version = "4", features = ["derive"] }
comrak = { version = "*", default-features = false }
globset = "0.4"
http-body-util = "0.1"
hyper = { version = "1", features = ["server", "http1"] }
hyper-util = { version = "0.1", features = ["tokio"] }
notify-debouncer-mini = "*"
rayon = "1"
serde = { version = "1", features = ["derive"] }
serde_yaml_ng = "*"
slug = "*"
tera = "1"
tokio = { version = "1", features = ["rt", "net", "sync", "macros", "time"] }
tokio-stream = { version = "0.1", features = ["sync"] }
tower = { version = "0.5", features = ["util"] }
tower-http = { version = "0.6", features = ["fs"] }
walkdir = "2"
