[package]
name = "quicktag"
version = "0.1.0"
edition = "2021"
publish = false

[dependencies]
anyhow = "1"
bincode = "=1.3.3"
destiny-pkg = "0.9"
epaint = { version = "0.27", default-features = false }
itertools = "0.12"
lazy_static = "1"
log = "0.4"
nohash-hasher = "=0.2.0"
rayon = "1"
zstd = "=0.13.3"
