[package]
name = "rnix_lsp"
version = "0.2.0"
edition = "2021"
publish = false

[dependencies]
dirs = "=3.0.2"
env_logger = "=0.8.4"
libc = "=0.2.191"
log = "=0.4.35"
lsp-server = "=0.5.2"
lsp-types = "=0.89.2"
nixpkgs-fmt = "=1.3.0"
rnix = "=0.10.2"
serde = "=1.0.229"
serde_json = "=1.0.154"
