[package]
name = "unterm"
version = "0.1.0"
edition = "2021"
publish = false

[dependencies]
git2 = { version = "=0.20.4", default-features = false }
glyphon = "=0.7.0"
log = "=0.4.35"
objc2 = "*"
objc2-app-kit = "*"
objc2-foundation = "*"
objc2-quartz-core = "*"
pollster = "=0.4.0"
portable-pty = "=0.9.0"
pulldown-cmark = { version = "=0.13.6", default-features = false }
raw-window-handle = "*"
similar = "=3.1.2"
wgpu = "=23.0.1"
windows = { version = "*", features = ["Win32_Foundation", "Win32_Graphics_Gdi", "Win32_Media_Audio", "Win32_System_LibraryLoader", "Win32_UI_WindowsAndMessaging"] }
