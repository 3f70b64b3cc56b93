[package]
name = "auth_core"
version = "0.1.0"
edition = "2021"
publish = false

[dependencies]
actix-cors = "*"
actix-web = "4"
base64 = "0.22"
chrono = { version = "0.4", features = ["serde"] }
cuid2 = "*"
dotenvy = "0.15"
env_logger = "*"
futures-util = "0.3"
jsonwebtoken = "9"
log = "0.4"
openidconnect = { version = "4", default-features = false, features = ["reqwest"] }
serde = { version = "1", features = ["derive"] }
serde_json = "1"
sha2 = "0.10"
subtle = "2"
thiserror = "*"
tokio = { version = "1", features = ["macros", "rt-multi-thread", "time"] }
