[package]
name = "git_rtc"
version = "0.1.0"
edition = "2021"
publish = false

[dependencies]
flate2 = "=1.1.10"
gix-hash = { version = "=0.28.1", features = ["sha1"] }
gix-object = "=0.66.1"
gix-odb = "=0.87.0"
gix-ref = "=0.69.1"
hex = "=0.4.3"
serde = "=1.0.229"
sha1 = "=0.10.7"
tempfile = "=3.27.0"
