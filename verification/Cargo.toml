[package]
name = "vectorscale"
version = "0.1.0"
edition = "2021"
publish = false

[dependencies]
lru = "0.16"
rkyv = { version = "0.7", features = ["validation", "archive_le"] }
pgrx = { version = "=0.16.1", features = ["pg18"] }
