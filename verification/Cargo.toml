[package]
name = "webrs"
version = "0.1.0"
edition = "2021"
publish = false

[dependencies]
flate2 = "*"
zstd = "*"
brotli = "*"
serde_json = "*"
mime_guess = "*"
uid = "*"
tokio = { version = "*", features = ["net", "io-util", "sync", "time", "rt"] }
async-trait = "*"
log = "*"
