[package]
name = "agnostir"
version = "0.1.0"
edition = "2021"
publish = false

[dependencies]
blake3 = "=1.8.7"
rand = "=0.9.5"
rand_xoshiro = "0.6"
rand_chacha = "=0.3.1"
p3-field = "=0.8.0"
p3-koala-bear = "=0.8.0"
voracious_radix_sort = { version = "=1.2.0", features = ["voracious_multithread"] }
rip_shuffle = "=0.2.0"
rayon = "=1.12.0"

[dev-dependencies]
ark-ff = "=0.5.0"
ark-secp256k1 = "=0.5.0"
