[package]
name = "sukis_git"
version = "0.1.0"
edition = "2021"
rust-version = "1.95"
publish = false

[dependencies]
gix = { version = "=0.80.0", features = ["blocking-network-client", "worktree-mutation"] }
# No code here names kstring. gix-attributes takes any kstring 2, and from
# 2.0.5 on that crate asks for a newer compiler than rust-version allows.
kstring = "=2.0.2"
petgraph = "=0.8.3"
serde = { version = "1", features = ["derive"] }
similar = "=2.7.0"
sysinfo = "=0.37.2"
