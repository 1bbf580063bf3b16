[package]
name = "rustfl"
version = "0.1.0"
edition = "2021"
publish = false

[dependencies]
fernet = { version = "0.2", default-features = false, features = ["rustcrypto"] }
rand = "0.8"
rand_distr = "0.4"
actix-web = { version = "4", default-features = false, features = ["macros"] }
reqwest = { version = "0.12", default-features = false, features = ["json"] }
tokio = { version = "1", features = ["macros", "rt-multi-thread"] }
serde = { version = "1", features = ["derive"] }
serde_json = "1"
log = "0.4"
env_logger = "0.11"
tch = "0.17"
