[package]
name = "river"
version = "0.5.0"
edition = "2021"
publish = false

[dependencies]
async-trait = "*"
bytes = "1"
cidr = "0.3"
futures-util = "*"
hickory-resolver = "*"
http = "1"
http-body-util = "0.1"
instant-acme = "*"
kdl = "4"
libc = "0.2"
miette = "5"
openssl = "0.10"
pingora = { version = "0.8", features = ["openssl", "lb", "proxy"] }
pingora-core = { version = "0.8", features = ["openssl"] }
pingora-http = "0.8"
pingora-load-balancing = { version = "0.8", features = ["openssl"] }
pingora-proxy = { version = "0.8", features = ["openssl"] }
regex = "1"
serde = { version = "1", features = ["derive"] }
serde_json = "1"
thiserror = "1"
tokio = { version = "1", features = ["full"] }
toml = "0.8"
tower-http = { version = "0.6", features = ["fs"] }
tracing = "0.1"
tracing-subscriber = "0.3"
