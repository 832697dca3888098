[package]
name = "chat_gateway"
version = "0.1.0"
edition = "2021"
publish = false

[dependencies]
axum = "*"
bcrypt = "*"
dashmap = "*"
dotenv = "*"
serde = { version = "*", features = ["derive"] }
serde_json = "*"
socketioxide = { version = "*", features = ["extensions", "state"] }
sqlx = { version = "*", default-features = false, features = ["runtime-tokio", "postgres", "time", "macros"] }
tokio = { version = "*", features = ["macros", "rt-multi-thread", "net", "fs"] }
tower = "*"
tower-http = { version = "*", features = ["cors", "fs"] }
tracing = "*"
tracing-subscriber = "*"
