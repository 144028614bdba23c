[package]
name = "transit_transfers"
version = "0.1.0"
edition = "2021"
publish = false

[dependencies]
chrono = "0.4"
env_logger = "*"
failure = "0.1"
log = "0.4"
slog = "2"
slog-async = "2"
slog-envlogger = "2"
slog-scope = "4"
slog-stdlog = "4"
slog-term = "2"
structopt = "0.3"
transit_model = "*"
