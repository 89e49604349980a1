[package]
name = "todo_store"
version = "0.1.0"
edition = "2021"
publish = false

[dependencies]
serde = { version = "=1.0.229", features = ["derive"] }
sea-query = "=0.32.7"
sea-query-binder = { version = "=0.7.0", features = ["sqlx-sqlite"] }
sqlx = { version = "=0.8.6", features = ["sqlite", "runtime-tokio"] }
thiserror = "=2.0.21"
tokio = { version = "=1.53.2", features = ["macros", "rt"] }
