[package]
name = "brad_qe"
version = "0.1.0"
edition = "2021"
publish = false

[dependencies]
arrow = "=43.0.0"
# Held back for arrow-arith 43: with a later chrono its calls of `quarter` are
# ambiguous and it does not compile.
chrono = "=0.4.38"
datafusion = { version = "=28.0.0", default-features = false }
futures = "=0.3.34"
tokio = { version = "=1.54.1", features = ["rt-multi-thread", "macros"] }
clap = { version = "=4.6.7", features = ["derive"] }
rustyline = "=10.1.1"
rand = { version = "=0.8.8", features = ["small_rng"] }
csv = "=1.4.0"
