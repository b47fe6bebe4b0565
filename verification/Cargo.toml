[package]
name = "table_layout"
version = "0.1.0"
edition = "2021"
publish = false

[dependencies]
taffy = { version = "=0.9.2", features = ["detailed_layout_info"] }
stylo = "*"
markup5ever = "*"
atomic_refcell = "*"
