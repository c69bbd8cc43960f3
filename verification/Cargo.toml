[package]
name = "pattern_scanner"
version = "0.1.0"
edition = "2021"
publish = false

[dependencies]
thiserror = "1"
windows = { version = "0.52", features = ["Win32_Foundation", "Win32_System_Diagnostics_Debug", "Win32_System_Memory", "Win32_System_ProcessStatus", "Win32_System_Threading"] }
