[package]
name = "mdx_ext"
version = "0.1.0"
edition = "2021"
publish = false

[dependencies]
comrak = "=0.59.0"
serde = { version = "=1.0.229", features = ["derive"] }
serde_json = "=1.0.154"
serde_yml = "=0.0.13"
thiserror = "=2.0.21"
mlua = { version = "=0.12.2", features = ["lua54", "vendored", "serialize", "send"] }
