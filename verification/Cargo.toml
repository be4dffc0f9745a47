[package]
name = "utc_telegram_bot"
version = "1.4.6"
edition = "2021"
publish = false

[dependencies]
heck = "=0.3.3"
fuzzy-matcher = "=0.3.7"
sha2 = "=0.10.9"
hex = "=0.4.3"
structopt = "=0.3.26"
tokio = { version = "=1.54.1", features = ["rt-multi-thread", "macros", "net", "sync"] }
teloxide = { version = "=0.13.0", default-features = false, features = ["ctrlc_handler", "rustls"] }
rand = "=0.8.8"
sqlx = { version = "=0.8.6", default-features = false, features = ["sqlite", "runtime-tokio", "chrono", "migrate"] }
chrono = "=0.4.45"
warp = { version = "=0.3.7", default-features = false }
futures = "=0.3.34"
serde = { version = "=1.0.229", features = ["derive"] }
serde_json = "=1.0.154"
tracing = "=0.1.44"
tracing-subscriber = { version = "=0.3.23", features = ["env-filter"] }
thiserror = "=1.0.69"
image = { version = "=0.24.9", default-features = false, features = ["jpeg"] }
# Pulled in by teloxide-core; 0.1.2 asks for a newer rustc than the one that builds this crate.
takecell = "<0.1.2"
