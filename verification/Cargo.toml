[package]
name = "rusty_torrent"
version = "0.1.0"
edition = "2021"
publish = false

[dependencies]
rust-crypto = "*"
sha1 = "*"
bencode = "*"
getopts = "*"
hyper = "0.10"
url = "1.7"
rand = "*"
