[package]
name = "tds_extract"
version = "0.1.0"
edition = "2021"
publish = false

[dependencies]
chrono = "*"
encoding_rs = "*"
tds-protocol = "*"
pcap = "*"
