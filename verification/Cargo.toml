[package]
name = "sparreal"
version = "0.1.0"
edition = "2021"
publish = false

[dependencies]
heapless = "0.8"
num-align = "*"
uefi = "*"
uefi-raw = "*"
acpi = "*"
byte-unit = "*"
log = "0.4"
spin = "*"
