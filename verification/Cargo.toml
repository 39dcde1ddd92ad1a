[package]
name = "openvm_profiler"
version = "0.1.0"
edition = "2021"
publish = false

[dependencies]
object = "=0.40.0"
rustc-demangle = "=0.1.28"
cpp_demangle = "=0.4.5"
sha2 = "=0.10.9"
hex = "=0.4.3"
eyre = "=0.6.14"
tracing-subscriber = "=0.3.23"
serde = { version = "1", features = ["derive"] }
