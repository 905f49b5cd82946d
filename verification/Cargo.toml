[package]
name = "auction_ledger"
version = "0.1.0"
edition = "2021"
publish = false

[dependencies]
candid = "=0.10.37"
ic-cdk = "=0.20.3"
ic-stable-structures = "=0.7.2"
serde = "*"
