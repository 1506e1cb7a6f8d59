[package]
name = "family_router"
version = "0.1.0"
edition = "2021"
publish = false

[dependencies]
smoltcp = "0.7"
pnet = "*"
actix-web = "4"
actix-files = "0.6"
diesel = { version = "1.4", features = ["sqlite", "r2d2"] }
askama = "*"
dotenv = "0.15"
env_logger = "*"
log = "0.4"
tokio = { version = "1", features = ["full"] }
iptables = "*"
sudo = "*"
serde = { version = "1", features = ["derive"] }
serde_derive = "1"
handlebars = "*"
