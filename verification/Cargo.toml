[package]
name = "tibe"
version = "0.1.0"
edition = "2021"
publish = false

[dependencies]
amcl_wrapper = { version = "=0.4.0", default-features = false, features = ["bls381"] }
rand = "=0.7.3"
zeroize = "=1.9.1"

[dev-dependencies]
sha2 = "=0.9.9"
