[package]
name = "cooklang_find"
version = "0.1.0"
edition = "2021"
publish = false

[dependencies]
serde_yaml = "*"
serde = "*"
serde_json = "*"
camino = "*"
glob = "*"
thiserror = "*"
cooklang = "*"
