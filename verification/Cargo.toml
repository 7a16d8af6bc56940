[package]
name = "weather_fetcher"
version = "0.1.0"
edition = "2021"

[dependencies]
libflate = "=2.3.2"
base64 = "=0.23.1"
regex = "=1.13.1"
ureq = "=3.4.2"
rusqlite = { version = "=0.40.2", features = ["bundled", "chrono"] }
chrono = "=0.4.45"
colored = "=3.1.1"
