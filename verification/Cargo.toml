[package]
name = "chack_staking"
version = "0.1.0"
edition = "2021"
publish = false

[dependencies]
anchor-lang = "*"
mpl-bubblegum = "*"
spl-account-compression = { version = "*", features = ["cpi"] }
solana-program = "*"
