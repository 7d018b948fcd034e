[package]
name = "cardinality_estimator_safe"
version = "0.1.0"
edition = "2021"
publish = false

[dependencies]
digest = "0.10"

[dev-dependencies]
wyhash = "0.5"
serde_json = "1"
