[package]
name = "portfel"
version = "0.1.0"
edition = "2021"
publish = false

[dependencies]
base64 = "*"
openssl = "*"
rand = "*"
log = "*"
serde = { version = "*", features = ["derive"] }
serde_json = "*"
serde_yaml = "*"
thiserror = "*"
clap = { version = "*", features = ["derive"] }
directories = "*"
env_logger = "*"
rpassword = "*"
reqwest = { version = "*", features = ["json"] }
tokio = { version = "*", features = ["rt-multi-thread", "macros", "net", "io-util", "time"] }
tokio-native-tls = "*"
strum = "*"
strum_macros = "*"
