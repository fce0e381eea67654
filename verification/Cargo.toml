[package]
name = "vgc_netwatch"
version = "0.1.0"
edition = "2021"
publish = false

[dependencies]
time = { version = "=0.3.55", features = ["macros", "formatting"] }
tracing = "=0.1.44"
tracing-appender = "=0.2.5"
tracing-subscriber = { version = "=0.3.23", features = ["env-filter", "json", "local-time", "time"] }
windows = { version = "0.52", features = ["Win32_Foundation", "Win32_NetworkManagement_IpHelper", "Win32_NetworkManagement_Ndis", "Win32_Networking_WinSock", "Win32_System_Console", "Win32_System_Diagnostics_ToolHelp", "Win32_System_SystemInformation"] }
