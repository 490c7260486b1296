[package]
name = "form_data"
version = "0.4.0"
edition = "2021"
publish = false

[dependencies]
actix-multipart = "=0.1.5"
actix-rt = "=0.2.6"
actix-threadpool = "=0.1.2"
bytes = "=0.4.12"
# Not called by this crate: actix-http 0.2, which actix-multipart 0.1 builds on,
# compiles only against a chrono whose Duration is still that of time 0.1.
chrono = "=0.4.19"
failure = "=0.1.8"
futures = "=0.1.31"
log = "=0.4.34"
mime = "=0.3.17"
