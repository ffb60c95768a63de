[package]
name = "avalon"
version = "0.1.0"
edition = "2021"
publish = false

[dependencies]
async-trait = "0.1"
bytes = "1"
chrono = "0.4"
futures = "0.3"
libc = "0.2"
log = "0.4"
object_store = "0.12"
serde = { version = "1", features = ["derive"] }
serde_json = "1"
siphasher = "1"
tokio = { version = "1", features = ["sync"] }
tonic = { version = "0.12", features = ["transport"] }
tracing = "0.1"
url = "2"
uuid = { version = "1", features = ["serde"] }

[dev-dependencies]
rand = "0.8"
