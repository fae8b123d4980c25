[package]
name = "elintranet-doh-and-resolver"
version = "0.1.0"
edition = "2021"
publish = false

[dependencies]
tiny_http = { version = "0.12", features = ["ssl-rustls"] }
reqwest = { version = "0.11", default-features = false, features = ["blocking", "rustls-tls"] }
