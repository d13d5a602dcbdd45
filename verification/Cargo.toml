[package]
name = "wifi_exporter"
version = "0.1.0"
edition = "2021"
publish = false

[dependencies]
clap = { version = "*", features = ["derive"] }
ctrlc = "*"
main_error = "=0.1.2"
rumqttc = "=0.25.1"
secretfile = "=0.1.1"
serde = { version = "*", features = ["derive"] }
ssh2 = "=0.9.6"
thiserror = "*"
tokio = { version = "*", features = ["macros", "rt-multi-thread", "time"] }
toml = "=1.1.6"
tracing = "*"
tracing-subscriber = "*"
warp = { version = "=0.4.3", features = ["server"] }
