[package]
name = "dafs"
version = "0.1.0"
edition = "2021"
publish = false

[dependencies]
anyhow = "=1.0.104"
axum = "=0.8.9"
clap = { version = "=4.6.7", features = ["derive", "env"] }
daemonize = "=0.5.0"
gix = { version = "=0.70.0", default-features = false }
infer = { version = "=0.19.0", default-features = false, features = ["std"] }
kamadak-exif = "=0.6.1"
nix = { version = "=0.29.0", features = ["fs", "process"] }
notify = "=8.2.1"
pdfium-render = { version = "=0.8.37", default-features = false, features = ["pdfium_latest", "thread_safe"] }
quick-xml = "=0.38.4"
rusqlite = { version = "=0.37.0", features = ["bundled"] }
serde = { version = "=1.0.229", features = ["derive"] }
serde_json = "=1.0.154"
sqlite-vec = "=0.1.9"
thiserror = "=2.0.21"
tikv-jemalloc-ctl = { version = "=0.6.1", features = ["stats"] }
tikv-jemallocator = "=0.6.1"
tokio = { version = "=1.54.1", features = ["macros", "net", "rt", "signal", "sync", "time"] }
tracing = "=0.1.44"
tracing-subscriber = { version = "=0.3.23", features = ["env-filter"] }
ureq = { version = "=2.12.1", features = ["json"] }
walkdir = "=2.5.0"
whatlang = "=0.16.4"
zip = { version = "=5.1.1", default-features = false, features = ["deflate"] }

[dev-dependencies]
tempfile = "=3.27.0"
