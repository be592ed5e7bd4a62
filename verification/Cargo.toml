[package]
name = "graph_ingest"
version = "0.1.0"
edition = "2021"
publish = false

[dependencies]
graph_map = "*"
rand = "0.8"
