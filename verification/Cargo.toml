[package]
name = "onlyati_datastore"
version = "0.1.0"
edition = "2021"
publish = false

[dependencies]
chrono = "0.4"
tokio = { version = "1", default-features = false, features = ["rt", "time"] }
reqwest = { version = "0.12", default-features = false, features = ["json"] }
