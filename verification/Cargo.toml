[package]
name = "arp_scan"
version = "0.1.0"
edition = "2021"
publish = false

[dependencies]
ipnetwork = "=0.20.0"
local-ip-address = "=0.6.13"
pnet = "=0.35.0"
