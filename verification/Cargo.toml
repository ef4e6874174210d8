[package]
name = "ser_hex"
version = "0.1.0"
edition = "2021"
publish = false

[dependencies]
anyhow = "=1.0.104"
backtrace = "=0.3.76"
base64 = "=0.23.1"
dtoa = "=1.0.11"
eframe = { version = "=0.36.2", default-features = false, features = ["glow", "x11"] }
egui = { version = "=0.36.2", default-features = false }
egui_memory_editor = "=0.2.16"
fs-err = "=3.3.2"
intervaltree = "=0.2.7"
itertools = "=0.15.0"
notify = "=8.2.1"
notify-debouncer-mini = "=0.7.0"
ratatui = { version = "=0.30.2", default-features = false, features = ["crossterm"] }
serde = { version = "=1.0.229", features = ["derive"] }
serde_json = { version = "=1.0.154", features = ["unbounded_depth"] }
tracing = "=0.1.44"
tracing-core = "=0.1.36"
tui-tree-widget = "=0.24.1"
