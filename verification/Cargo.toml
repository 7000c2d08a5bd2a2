[package]
name = "git_branch_stash"
version = "0.1.0"
edition = "2021"
publish = false

[dependencies]
clap = { version = "*", features = ["derive"] }
git2 = { version = "*", default-features = false }
git2-ext = "*"
git-config-env = "*"
serde = { version = "*", features = ["derive"] }
serde_json = "*"
