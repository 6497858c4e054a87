[package]
name = "port_scan"
version = "0.1.0"
edition = "2021"
publish = false

[dependencies]
ansi_term = "*"
bpaf = { version = "*", features = ["derive"] }
prettytable-rs = "*"
tokio = { version = "1", features = ["macros", "net", "rt-multi-thread"] }
