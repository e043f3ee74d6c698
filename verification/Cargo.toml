[package]
name = "spellkit"
version = "0.1.0"
edition = "2021"
publish = false

[dependencies]
cfg-if = "=1.0.5"
hunspell-sys = "=0.3.1"
windows = { version = "=0.62.2", features = ["Win32_Foundation", "Win32_Globalization", "Win32_System_Com"] }
