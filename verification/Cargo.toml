[package]
name = "keyscan"
version = "0.1.0"
edition = "2021"
publish = false

[dependencies]
hmac = "*"
pbkdf2 = "*"
sha1 = "*"
rayon = "*"
stopwatch = "*"
