[package]
name = "ais_parquet_optimizer"
version = "0.1.0"
edition = "2021"
publish = false

[dependencies]
anyhow = "=1.0.104"
arrow = { version = "=54.3.1", default-features = false, features = ["csv"] }
clap = { version = "=4.6.7", features = ["derive"] }
datafusion = { version = "=45.0.0", default-features = false, features = ["parquet", "datetime_expressions"] }
futures = "=0.3.34"
num_cpus = "=1.17.0"
parquet = { version = "=54.3.1", default-features = false, features = ["arrow", "zstd"] }
tokio = { version = "=1.54.1", features = ["rt-multi-thread", "macros", "sync"] }

[dev-dependencies]
bytes = "=1.12.1"
