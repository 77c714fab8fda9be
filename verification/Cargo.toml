[package]
name = "cluster_controller"
version = "0.1.0"
edition = "2021"
publish = false

[dependencies]
regex = "1"
csv = "1"
timely = "*"
differential-dataflow = "*"
semver = "1"
uuid = { version = "1", features = ["v4"] }
chrono = { version = "0.4", default-features = false, features = ["std", "clock"] }
anyhow = "1"
tokio = { version = "1", features = ["sync", "macros", "rt", "time"] }
tokio-stream = "0.1"
futures = "0.3"
tracing = "0.1"
serde = { version = "1", features = ["derive"] }
proptest = { version = "1", default-features = false, features = ["std"] }
syn = { version = "2", features = ["full"] }
prettyplease = "0.2"
quote = "1"
proc-macro2 = "1"

[dev-dependencies]
num = "0.4"
