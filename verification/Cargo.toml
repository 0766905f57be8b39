[package]
name = "keez"
version = "0.1.0"
edition = "2021"
publish = false

[dependencies]
tindercrypt = "=0.3.4"
keyring = { version = "=3.6.3", default-features = false, features = ["linux-native"] }
rand = "=0.10.3"
rusoto_ssm = { version = "=0.48.0", default-features = false, features = ["rustls"] }
tokio = { version = "=1.53.2", features = ["rt-multi-thread"] }
structopt = "=0.3.26"
mktemp = "=0.5.1"
text_io = "=0.1.13"
