[package]
name = "midi_arpeggiator"
version = "0.1.0"
edition = "2021"
publish = false

[dependencies]
wmidi = "*"
nonblock = "*"
serde = { version = "*", features = ["derive"] }
serde_derive = "*"
serde_json = "*"
