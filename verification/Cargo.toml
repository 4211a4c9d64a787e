[package]
name = "dwm_monitor"
version = "0.1.0"
edition = "2021"
publish = false

[dependencies]
log = "0.4"
log4rs = "1"
simple_config_parser = "*"
winapi = { version = "0.3", features = ["processthreadsapi", "psapi", "handleapi", "winnt", "minwindef", "errhandlingapi"] }
windows-service = "*"
