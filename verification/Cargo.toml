[package]
name = "vectify"
version = "0.1.0"
edition = "2021"
publish = false

[dependencies]
anyhow = "1"
clap = { version = "4", features = ["derive"] }
eframe = { version = "*", default-features = false, features = ["default_fonts", "glow", "x11"] }
egui = { version = "*", default-features = false, features = ["default_fonts"] }
image = { version = "0.25", default-features = false, features = ["png", "jpeg", "gif", "bmp", "tiff", "webp", "tga", "ico", "pnm", "qoi", "dds", "ff", "exr", "hdr"] }
rayon = "1"
resvg = { version = "*", default-features = false }
rfd = { version = "*", default-features = false, features = ["xdg-portal"] }
serde = { version = "1", features = ["derive"] }
serde_json = "1"
usvg = { version = "*", default-features = false }
