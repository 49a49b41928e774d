[package]
name = "lpm"
version = "0.1.0"
edition = "2021"
publish = false

[dependencies]
clap = { version = "*", features = ["derive"] }
clippers = "*"
colored = "*"
git2 = { version = "*", default-features = false }
mlua = { version = "*", features = ["lua54", "vendored"] }
reqwest = { version = "*", default-features = false, features = ["json"] }
serde = { version = "*", features = ["derive"] }
sha2 = "*"
tokio = { version = "*", features = ["macros", "rt-multi-thread"] }
toml = "*"
walkdir = "*"
