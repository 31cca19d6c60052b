[package]
name = "ion_signatures"
version = "0.1.0"
edition = "2021"
publish = false

[dependencies]
anyhow = "=1.0.104"
clap = "=4.6.7"
ion-rs = { version = "=1.0.1", features = ["experimental-reader-writer", "experimental-tooling-apis"] }
