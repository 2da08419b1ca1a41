[package]
name = "sch_pdf_compare"
version = "0.1.0"
edition = "2021"
publish = false

[dependencies]
mupdf = "*"
serde = { version = "1", features = ["derive"] }
serde_json = "1"
libc = "0.2"
windows-sys = { version = "*", features = ["Win32_Foundation", "Win32_System_Threading", "Win32_Security"] }
