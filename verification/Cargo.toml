[package]
name = "rust_examples"
version = "0.1.0"
edition = "2021"
publish = false

[dependencies]
roxmltree = "*"
serde = { version = "1", features = ["derive"] }
serde_json = "1"
colored = "*"
winapi = { version = "0.3", features = ["consoleapi", "processenv", "winbase"] }
tokio-modbus = { version = "*", default-features = false, features = ["tcp"] }
tokio = { version = "1", features = ["rt-multi-thread"] }

[dev-dependencies]
regex = "1"
