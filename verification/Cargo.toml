[package]
name = "nadamark"
version = "0.1.0"
edition = "2021"
publish = false

[dependencies]
serde_json = "*"
time = { version = "*", features = ["formatting", "parsing", "local-offset"] }
axum = "*"
tokio = { version = "*", features = ["rt-multi-thread", "macros", "net"] }
tower-http = { version = "*", features = ["cors", "fs"] }
diesel = { version = "*", features = ["sqlite", "r2d2", "time", "returning_clauses_for_sqlite_3_35"] }
diesel_migrations = "*"
directories = "*"
serde = { version = "*", features = ["derive"] }
libsqlite3-sys = { version = "*", features = ["bundled"] }
