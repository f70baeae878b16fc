[package]
name = "kube_resources"
version = "0.1.0"
edition = "2021"
publish = false

[dependencies]
anyhow = "1"
bpaf = { version = "0.7", features = ["derive"] }
k8s-openapi = { version = "0.16", features = ["v1_25"] }
kube = { version = "0.77", default-features = false, features = ["client", "rustls-tls"] }
tabled = "0.10"
tokio = { version = "1", features = ["macros", "rt-multi-thread"] }
