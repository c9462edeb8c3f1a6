[package]
name = "kv_store"
version = "0.1.0"
edition = "2021"
publish = false

[dependencies]
serde = { version = "=1.0.229", features = ["derive"] }
serde_json = "=1.0.154"
omnipaxos = { version = "=0.2.4", features = ["serde", "macros"] }
omnipaxos_storage = { version = "=0.2.4", features = ["persistent_storage"] }
rocksdb = "=0.21.0"
tokio = { version = "=1.54.1", features = ["full"] }
futures = "=0.3.34"
kube = { version = "=0.87.2", features = ["runtime"] }
k8s-openapi = { version = "=0.20.0", features = ["v1_28"] }
