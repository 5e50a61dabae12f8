[package]
name = "multigit"
version = "0.1.0"
edition = "2021"
publish = false

[dependencies]
anyhow = "1"
better-panic = "*"
clap = { version = "4", features = ["derive"] }
clap_complete = "4"
fern = "*"
git2 = { version = "*", default-features = false }
inquire = "*"
log = "*"
path-absolutize = "*"
patharg = "*"
serde = { version = "1", features = ["derive"] }
shell-words = "*"
shellexpand = "*"
tabled = "*"
termsize = "*"
toml = "*"
