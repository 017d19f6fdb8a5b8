[package]
name = "leptos_command_palette"
version = "0.1.0"
edition = "2021"
publish = false

[dependencies]
leptos = { version = "0.8", features = ["csr"] }
web-sys = { version = "0.3", features = ["Window", "Navigator", "KeyboardEvent", "MouseEvent", "HtmlInputElement", "Event"] }
