[package]
name = "transit_model"
version = "0.1.0"
edition = "2021"
publish = false

[dependencies]
typed_index_collection = "*"
relational_types = "*"
serde = { version = "1", features = ["derive"] }
serde_json = "1"
csv = "1"
failure = "0.1"
log = "0.4"
env_logger = "*"
structopt = "0.3"
chrono = "0.4"
zip = { version = "0.6", default-features = false, features = ["deflate"] }
