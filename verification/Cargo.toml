[package]
name = "cvar_patch"
version = "0.1.0"
edition = "2021"
publish = false

[dependencies]
anyhow = "1"

[dependencies.windows]
version = "0.57"
features = [
    "Win32_Foundation",
    "Win32_System_Diagnostics_Debug",
    "Win32_System_Diagnostics_ToolHelp",
    "Win32_System_SystemInformation",
    "Win32_System_SystemServices",
    "Win32_System_Threading",
]
