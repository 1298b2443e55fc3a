[package]
name = "query_planner"
version = "0.1.0"
edition = "2021"
publish = false

[dependencies]
graphql-parser = "*"
linked-hash-map = "*"
