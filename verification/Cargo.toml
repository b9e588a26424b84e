[package]
name = "inner_machinations"
version = "0.1.0"
edition = "2021"
publish = false

[dependencies]
serde = { version = "1", features = ["derive"] }
chrono = { version = "0.4", features = ["serde"] }
rand = "0.8"
dotenv = "0.15"
magic-crypt = "*"
lettre = "*"
diesel = { version = "2", features = ["sqlite", "chrono"] }
diesel_migrations = "2"
diesel-derive-enum = { version = "2", features = ["sqlite"] }
libsqlite3-sys = { version = "*", features = ["bundled"] }
