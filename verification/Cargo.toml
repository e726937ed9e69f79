[package]
name = "commit_notifier"
version = "0.1.0"
edition = "2021"
publish = false

[dependencies]
rusqlite = "*"
regex = "*"
git2 = { version = "*", default-features = false }
