[package]
name = "misclab_core"
version = "0.1.0"
edition = "2021"
publish = false

[dependencies]
hex = "=0.4.3"
flate2 = "=1.1.10"
base64 = "=0.22.1"
zip = { version = "=2.6.1", default-features = false, features = ["deflate", "aes-crypto"] }
tar = "=0.4.46"
sevenz-rust = "=0.6.1"
unrar = "=0.5.8"
goblin = "=0.10.7"
image = { version = "=0.25.10", default-features = false, features = ["png"] }
rustfft = "=6.4.1"
hound = "=3.5.1"
num-bigint = "=0.4.8"
petgraph = "=0.6.5"
regex = "=1.13.1"
serde = { version = "=1.0.229", features = ["derive", "rc"] }
serde_json = "=1.0.154"
thiserror = "=1.0.69"
ureq = { version = "=2.12.1", default-features = false, features = ["json"] }
uuid = { version = "=1.29.0", features = ["v4", "serde"] }
md-5 = "=0.10.6"
sha2 = "=0.10.9"
digest = "=0.10.7"
aes = "=0.8.4"
cbc = { version = "=0.1.2", features = ["alloc"] }
ecb = { version = "=0.1.2", features = ["alloc"] }
ctr = "=0.9.2"
bcrypt = "=0.15.1"
