[package]
name = "polars_usaddress"
version = "0.1.0"
edition = "2021"
publish = false

[dependencies]
crfs = "=0.4.1"
regex = "=1.13.1"
rustc-hash = "=2.1.3"
thiserror = "=2.0.21"
rayon = "=1.12.0"
polars = { version = "=0.55.2", features = ["dtype-struct"] }
polars-arrow = "=0.55.2"
pyo3-polars = { version = "=0.28.0", features = ["derive"] }

[dev-dependencies]
cqdb = "=0.7.0"
