[package]
name = "megabit-coproc-simulator"
version = "0.1.0"
edition = "2021"
publish = false

[dependencies]
async-channel = "=2.5.0"
axum = { version = "=0.7.9", features = ["ws"] }
cobs = "=0.2.3"
futures = "=0.3.34"
gloo = "=0.10.0"
log = "=0.4.35"
nix = { version = "=0.27.1", features = ["term", "fs"] }
serde = { version = "=1.0.229", features = ["derive"] }
serde_json = "=1.0.154"
tokio = { version = "=1.54.1", features = ["full"] }
tower-http = { version = "=0.5.2", features = ["fs", "trace"] }
tracing = "=0.1.44"
tracing-subscriber = { version = "=0.3.23", features = ["env-filter"] }
wasm-bindgen = "=0.2.130"
wasm-bindgen-futures = "=0.4.80"
web-sys = { version = "=0.3.107", features = ["HtmlCanvasElement", "CanvasRenderingContext2d"] }
yew = { version = "=0.21.0", features = ["csr"] }
