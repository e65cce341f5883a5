[package]
name = "datarunner_core"
version = "0.1.0"
edition = "2021"
publish = false

[dependencies]
regex = "1"
strsim = "0.11"
serde = { version = "1", features = ["derive"] }
serde_json = "1"
chrono = { version = "0.4", default-features = false, features = ["clock", "std"] }
base64 = "0.22"
anyhow = "1"
log = "0.4"
env_logger = { version = "0.11", default-features = false }
directories = "6"
image = { version = "0.25", default-features = false, features = ["jpeg", "png"] }
imageproc = { version = "0.25", default-features = false }
notify = "8"
ureq = { version = "2", default-features = false, features = ["json", "tls"] }
egui = "0.29"
rfd = { version = "0.15", default-features = false, features = ["xdg-portal", "tokio"] }
