[package]
name = "carbites"
version = "0.1.0"
edition = "2021"
publish = false

[dependencies]
integer-encoding = "*"
libipld = "*"
libipld-cbor = "*"
thiserror = "*"
