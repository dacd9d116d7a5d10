[package]
name = "zettarium"
version = "0.1.0"
edition = "2021"
publish = false

[dependencies]
anyhow = "=1.0.104"
arboard = "=3.6.1"
chrono = "=0.4.45"
clap = { version = "=4.6.7", features = ["derive"] }
config = "=0.15.27"
diesel = { version = "=2.3.13", features = ["sqlite", "returning_clauses_for_sqlite_3_35", "chrono"] }
etcetera = "=0.11.0"
libsqlite3-sys = { version = "=0.38.2", features = ["bundled"] }
prettytable-rs = "=0.10.0"
serde = { version = "=1.0.229", features = ["derive"] }
termimad = "=0.35.5"
which = "=8.0.6"
