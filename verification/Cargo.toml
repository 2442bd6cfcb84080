[package]
name = "http"
version = "0.1.0"
edition = "2021"
publish = false

[dependencies]
base64 = "=0.13.1"
embedded-websocket = "=0.6.0"
http_req = { version = "=0.7.2", default-features = false, features = ["rust-tls"] }
httparse = "=1.10.1"
rand = "0.8"
rand_core = "=0.6.4"
rustls = "=0.19.1"
sha1 = "=0.6.1"
webpki = "=0.21.4"
webpki-roots = "=0.21.1"
