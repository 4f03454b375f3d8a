[package]
name = "moose"
version = "0.1.0"
edition = "2021"
publish = false

[dependencies]
generational-arena = "=0.2.9"
x86_64 = { version = "=0.15.5", default-features = false, features = ["instructions"] }
raw-cpuid = "=11.6.0"
spin = "=0.12.3"
log = "=0.4.35"
thiserror = "=2.0.21"
ucs2 = "=0.3.3"
chrono = { version = "=0.4.45", default-features = false }
hashbrown = "=0.17.1"
