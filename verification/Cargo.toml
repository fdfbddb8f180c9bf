[package]
name = "nextcore_core"
version = "0.1.0"
edition = "2021"
publish = false

[dependencies]
sha2 = "0.10"
roxmltree = "0.21"
plist = "1"
serde = { version = "1", features = ["derive"] }
goblin = "0.9"
thiserror = "2"
log = "0.4"
