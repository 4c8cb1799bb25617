[package]
name = "mathtutor"
version = "0.1.0"
edition = "2021"
publish = false

[dependencies]
subtle = "=2.6.1"
argh = "=0.1.19"
ayml = "=0.1.0"
chrono = "=0.4.45"
fsrs = { version = "=6.6.2", default-features = false }
libsql = { version = "=0.10.0", default-features = false, features = ["core"] }
serde = { version = "=1.0.229", features = ["derive"] }
serde_json = "=1.0.154"
thiserror = "=2.0.21"
tokio = { version = "=1.54.1", features = ["macros", "rt-multi-thread", "time"] }
sha2 = "0.10"
base64 = "0.22"
hmac = "0.12"
rand = "0.9"
url = "2"
