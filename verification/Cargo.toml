[package]
name = "declarative_dataflow"
version = "0.1.0"
edition = "2021"
publish = false

[dependencies]
uuid = { version = "=1.27.0", features = ["serde"] }
timely = "=0.31.0"
differential-dataflow = "=0.25.1"
csv = "=1.4.0"
serde = { version = "=1.0.229", features = ["derive"] }
serde_json = "=1.0.151"
num-rational = { version = "=0.4.2", features = ["serde"] }
fixed = { version = "=1.31.0", features = ["serde"] }
