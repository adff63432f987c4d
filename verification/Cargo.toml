[package]
name = "journal_export"
version = "0.1.0"
edition = "2021"
publish = false

[dependencies]
chrono = "0.4"
chrono-english = "0.1"
flate2 = "1"
structopt = "0.3"
