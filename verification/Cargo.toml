[package]
name = "bevy_hid"
version = "0.1.0"
edition = "2021"
publish = false

[dependencies]
bevy = { version = "=0.17.3", default-features = false, features = ["std", "bevy_asset", "bevy_log"] }
hidapi = { version = "=2.6.7", default-features = false, features = ["linux-native-basic-udev"] }
ron = "=0.11.0"
serde = { version = "=1.0.229", features = ["derive"] }
thiserror = "=2.0.21"
