[package]
name = "reactive_core"
version = "0.1.0"
edition = "2021"
publish = false

[dependencies]
console_error_panic_hook = "0.1"
gloo-timers = { version = "0.3", features = ["futures"] }
leptos = { version = "0.8", features = ["csr"] }
