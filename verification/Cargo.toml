[package]
name = "bt_battery_tray"
version = "0.1.0"
edition = "2021"
publish = false

[dependencies]
chrono = "0.4"
winreg = "0.52"
windows = { version = "0.58", features = ["Win32_Foundation", "Win32_Graphics_Gdi", "Win32_System_LibraryLoader", "Win32_System_Threading", "Win32_Security", "Win32_UI_Shell", "Win32_UI_WindowsAndMessaging", "Win32_UI_Accessibility", "Win32_UI_Input_KeyboardAndMouse", "Devices_Bluetooth", "Devices_Enumeration", "Foundation", "Foundation_Collections"] }
