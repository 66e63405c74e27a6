[package]
name = "dshe"
version = "0.1.0"
edition = "2021"
publish = false

[dependencies]
anyhow = { version = "=1.0.104", default-features = false, features = ["std"] }
clap = { version = "=4.6.7", default-features = false, features = ["std", "derive", "help", "usage", "error-context"] }
console = { version = "=0.16.6", default-features = false, features = ["std"] }
flate2 = { version = "=1.1.10", default-features = false, features = ["rust_backend"] }
futures-buffered = { version = "=0.2.13", default-features = false }
hex = "=0.4.3"
# Not called here. This version makes the `idna` crate below iroh use the small `unicode-rs` tables
# in place of those of ICU4X.
idna_adapter = "=1.1.0"
indicatif = { version = "=0.18.6", default-features = false }
iroh = { version = "=1.4.1", default-features = false, features = ["tls-ring"] }
iroh-blobs = { version = "=0.104.0", default-features = false, features = ["fs-store"] }
irpc = { version = "=0.17.0", default-features = false }
libc = "=0.2.191"
n0-future = { version = "=0.3.2", default-features = false }
qrcode = { version = "=0.14.1", default-features = false }
socket2 = "=0.6.5"
tar = { version = "=0.4.46", default-features = false }
tokio = { version = "=1.54.1", default-features = false, features = ["rt-multi-thread", "macros", "net", "time", "sync", "signal", "fs"] }
tracing = { version = "=0.1.44", default-features = false }
tracing-subscriber = { version = "=0.3.23", default-features = false, features = ["fmt"] }
walkdir = "=2.5.0"
