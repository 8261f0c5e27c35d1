[package]
name = "body_weight_meter"
version = "0.1.0"
edition = "2021"
publish = false

[dependencies]
sled = "=0.34.7"
actix-web = { version = "=1.0.9", default-features = false }
# Not called here: actix-http 0.2 compiles only against chrono before 0.4.20.
chrono = "=0.4.19"
serde = { version = "1", features = ["derive"] }
serde_derive = "1"
ctrlc = "3"
