[package]
name = "barnabas"
version = "0.1.0"
edition = "2021"
publish = false

[dependencies]
bytes = "=1.12.1"
chrono = "=0.4.45"
crc32c = "=0.6.9"
flate2 = "=1.1.10"
futures-lite = "=2.6.1"
futures-rustls = "=0.26.0"
glommio = "=0.9.0"
hmac = "=0.12.1"
kafka-protocol = "=0.17.0"
lz4 = "=1.28.1"
rdkafka = "=0.39.0"
rskafka = { version = "=0.6.0", features = ["unstable-fuzzing"] }
rustls = { version = "=0.23.46", features = ["ring"] }
sha2 = "=0.10.9"
snap = "=1.1.2"
thiserror = "=2.0.21"
tokio = { version = "=1.54.1", features = ["net", "io-util", "time", "rt", "rt-multi-thread", "macros"] }
webpki-roots = "=1.0.10"
zstd = "=0.13.4"
