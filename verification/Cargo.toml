[package]
name = "mem_analyze"
version = "0.1.0"
edition = "2021"
publish = false

[dependencies]
byteorder = "*"
chrono = "*"
clap = "*"
csv = "*"
json = "*"
log = "*"
rand = "*"
simplelog = "*"
sysinfo = "*"
telnet = "*"
