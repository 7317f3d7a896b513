[package]
name = "linkgraph"
version = "0.1.0"
edition = "2021"
publish = false

[dependencies]
bincode = "=1.3.3"
# indicatif takes console without its default features, and does not build so
console = "=0.16.6"
flate2 = "=1.1.10"
indicatif = "=0.16.2"
rand = "=0.7.3"
regex = "=1.13.1"
