[package]
name = "gix_of_theseus"
version = "0.1.0"
edition = "2021"
publish = false

[dependencies]
anyhow = "*"
chrono = "*"
clap = { version = "*", features = ["derive"] }
crossbeam-channel = "*"
gix = "*"
gix-date = "*"
gix-diff = { version = "*", features = ["blob"] }
gix-filter = "*"
gix-hash = "*"
gix-index = "*"
gix-object = "*"
gix-odb = "*"
gix-worktree = { version = "*", features = ["attributes"] }
globset = "*"
indicatif = "*"
rayon = "*"
serde = { version = "*", features = ["derive"] }
serde_json = "*"
thread_local = "*"
