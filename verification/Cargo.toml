[package]
name = "git-ignore"
version = "0.1.0"
edition = "2021"
publish = false

[dependencies]
argh = "0.1"
dirs = "*"
fst = "0.4"
gix = { version = "*", features = ["blocking-network-client"] }
mimalloc = "*"
redb = "*"
sha2 = "0.10"
thiserror = "2"
