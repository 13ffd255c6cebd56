[package]
name = "osc_receiver"
version = "0.1.0"
edition = "2021"
publish = false

[dependencies]
rosc = "*"
rppal = { version = "*", features = ["hal"] }
apa102-spi = "*"
ws2812-spi = "*"
smart-leds = "*"
embedded-hal = "*"
