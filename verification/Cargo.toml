[package]
name = "sse_stream"
version = "0.3.0"
edition = "2021"
publish = false

[dependencies]
bytes = "1"
memchr = "2"
simdutf8 = "0.1"
futures-util = "0.3"
http-body = "1"
http-body-util = "0.1"
pin-project-lite = "0.2"
thiserror = "2"

[dev-dependencies]
futures-util = "0.3"
