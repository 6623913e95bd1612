[package]
name = "dd_gui"
version = "0.1.0"
edition = "2021"
publish = false

[dependencies]
bzip2 = "=0.6.1"
flate2 = "=1.1.10"
libc = "0.2"
lz4_flex = "=0.14.0"
lzfse_rust = "=0.2.1"
lzma-rust2 = "=0.25.0"
plist = { version = "=1.10.3", features = ["enable_unstable_features_that_may_break_with_minor_version_bumps"] }
ruzstd = "=0.9.1"
serde = { version = "1", features = ["derive"] }
serde_json = "=1.0.154"
sevenz-rust2 = { version = "=0.24.2", features = ["deflate", "lz4", "zstd"] }
zip = "=9.2.2"
zstd = "=0.14.3"
