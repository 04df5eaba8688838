[package]
name = "chatroom_core"
version = "0.1.0"
edition = "2021"
publish = false

[dependencies]
rand = "*"
tokio = { version = "*", features = ["macros", "rt-multi-thread", "sync", "time"] }
actix-web = "*"
actix-ws = "*"
serde = { version = "*", features = ["derive"] }
serde_json = "*"
futures-util = "*"
tokio-tungstenite = "*"
ratatui = "*"
crossterm = "*"
dotenv = "*"
