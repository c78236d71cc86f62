[package]
name = "git_graph"
version = "0.1.0"
edition = "2021"
publish = false

[dependencies]
regex = "*"
yansi = "0.5"
git2 = { version = "*", default-features = false }
chrono = "*"
textwrap = "*"
toml = "*"
serde = "*"
serde_derive = "*"
clap = "*"
crossterm = "0.25"
atty = "*"
platform-dirs = "*"
itertools = "*"
svg = "*"
