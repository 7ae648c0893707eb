[package]
name = "steam_core"
version = "0.1.0"
edition = "2021"
publish = false

[dependencies]
serde = { version = "1", features = ["derive"] }
serde_json = "1"
sysinfo = "0.33"
time = { version = "0.3", features = ["macros", "formatting", "parsing", "local-offset"] }
