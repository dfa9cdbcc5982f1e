[package]
name = "email_sigs"
version = "0.1.0"
edition = "2021"
publish = false

[dependencies]
exit-code = "*"
indexmap = "*"
lexopt = "*"
osascript = "*"
serde = { version = "1", features = ["derive"] }
serde_derive = "1"

[dev-dependencies]
chumsky = { version = "0.9", default-features = false, features = ["std"] }
