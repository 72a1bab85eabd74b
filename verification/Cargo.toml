[package]
name = "timetable_graph"
version = "0.1.0"
edition = "2021"
publish = false

[dependencies]
bit-set = "0.5"
petgraph = "0.6"
bincode = "1"
chrono = "0.4"
flate2 = "1"
quick-xml = "0.31"
serde = { version = "1", features = ["derive"] }
