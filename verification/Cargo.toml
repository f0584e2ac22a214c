[package]
name = "qar_decode"
version = "0.1.0"
edition = "2021"
publish = false

[dependencies]
bzip2 = "0.4"
lexopt = "0.3"
memmap2 = "0.9"
mlua = { version = "0.9", features = ["luajit52", "vendored", "serialize"] }
serde = { version = "1", features = ["derive"] }
serde_json = "1"
