[package]
name = "noema-core"
version = "0.1.0"
edition = "2021"
publish = false

[dependencies]
clap = { version = "4", features = ["derive"] }
directories = "*"
notify-debouncer-mini = "*"
ollama-rs = "*"
serde = { version = "1", features = ["derive"] }
thiserror = "*"
tokio = { version = "1", features = ["macros", "rt-multi-thread"] }
toml = "*"
url = "2"
walkdir = "2"
