[package]
name = "battito"
version = "0.1.0"
edition = "2021"
publish = false

[dependencies]
gcd = "=2.3.0"
serde = { version = "=1.0.229", features = ["derive"] }
serde_json = "=1.0.154"
nannou_osc = "=0.20.0"
structopt = "=0.3.26"
rustyline = "*"
rustyline-derive = "*"
actix-web = { version = "*", default-features = false, features = ["macros"] }
derive_more = { version = "*", features = ["display", "error"] }
