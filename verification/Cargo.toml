[package]
name = "svarog_eddsa"
version = "0.1.0"
edition = "2021"
publish = false

[dependencies]
aes-gcm = "=0.11.1"
blake2 = "=0.11.0"
curve-abstract = "=0.1.0"
curve25519-dalek = { version = "=4.1.3", features = ["group", "serde"] }
erreur = "=0.2.1"
group = "=0.13.0"
rand = "=0.10.3"
rug = "=1.30.0"
serde = { version = "=1.0.229", features = ["derive"] }
sha2 = "=0.11.1"
svarog-curve25519 = "=0.1.0"
svarog-lagrange = "=0.1.0"
