[package]
name = "adapter_info"
version = "0.1.0"
edition = "2021"
publish = false

[dependencies]
winapi = { version = "0.3", features = ["iphlpapi", "iptypes", "winerror", "minwindef", "ws2def", "ws2tcpip", "in6addr", "ws2ipdef"] }

[dev-dependencies]
ipnet = "*"
