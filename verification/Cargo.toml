[package]
name = "autolala"
version = "0.1.0"
edition = "2021"
publish = false

[dependencies]
ahash = "=0.8.12"
anyhow = "=1.0.104"
comfy-table = "=8.0.1"
indicatif = { version = "=0.18.6", features = ["rayon"] }
melior = "=0.28.2"
mimalloc = "=0.1.52"
mlir-sys = "=230.0.2"
palc = "=0.0.2"
plotters = { version = "=0.3.7", default-features = false, features = ["svg_backend"] }
r2d2 = "=0.8.10"
r2d2_sqlite = "=0.35.0"
rand = "=0.9.5"
rand_chacha = "=0.9.0"
rayon = "=1.12.0"
rusqlite = "=0.40.2"
rustc-hash = "=2.1.3"
serde = { version = "=1.0.229", features = ["derive"] }
serde_json = "=1.0.154"
simd-json = "=0.19.0"
splines = "=5.0.0"
statrs = "=0.19.1"
symbolica = { version = "=2.2.0", default-features = false, features = ["no_gmp"] }
sysinfo = "=0.40.1"
tempfile = "=3.27.0"
tracing = "=0.1.44"
tracing-subscriber = { version = "=0.3.23", features = ["env-filter"] }
unescaper = "=0.2.0"
