[package]
name = "tspgen"
version = "0.1.0"
edition = "2021"
publish = false

[dependencies]
clap = { version = "=4.6.7", features = ["derive"] }
ddo = "=1.0.0"
handlebars = "=4.5.0"
osrm_client = "=0.1.3"
rand = "=0.8.8"
rand_chacha = "=0.3.1"
rand_distr = "=0.4.3"
serde = { version = "=1.0.229", features = ["derive"] }
serde_json = "=1.0.154"
smallbitset = "=0.5.1"
tokio = { version = "=1.54.1", features = ["macros", "rt-multi-thread"] }
