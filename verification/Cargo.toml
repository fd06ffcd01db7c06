[package]
name = "casper_shot"
version = "0.1.0"
edition = "2021"
publish = false

[dependencies]
windows-sys = { version = "0.60", features = ["Win32_Foundation", "Win32_Security", "Win32_UI_WindowsAndMessaging", "Win32_UI_Input_KeyboardAndMouse", "Win32_Graphics_Gdi", "Win32_Graphics_Dwm", "Win32_System_Com", "Win32_UI_Shell", "Win32_System_LibraryLoader", "Win32_System_DataExchange", "Win32_System_Memory", "Win32_System_Ole", "Win32_UI_Controls", "Win32_UI_HiDpi", "Win32_System_SystemInformation", "Win32_System_Threading"] }
