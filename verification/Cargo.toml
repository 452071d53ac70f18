[package]
name = "save3ds"
version = "0.1.0"
edition = "2021"
publish = false

[dependencies]
aes = "0.8"
cmac = "0.7"
sha2 = "0.10"
lru = "0.12"
log = "0.4"
getopts = "0.2"
stderrlog = "0.5"
libc = "0.2"
fuser = { version = "0.14", default-features = false }

[dev-dependencies]
rand = "0.8"
