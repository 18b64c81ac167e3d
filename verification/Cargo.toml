[package]
name = "dally_eval"
version = "0.1.0"
edition = "2021"
publish = false

[dependencies]
bytemuck = { version = "1", features = ["derive", "extern_crate_alloc"] }
cubecl = { version = "0.10", default-features = false, features = ["std"] }
cubecl-runtime = { version = "0.10", default-features = false, features = ["std"] }
cubecl-wgpu = { version = "0.10", default-features = false, features = ["std"] }
pollster = "0.4"
rayon = "1"
wgpu = { version = "24", default-features = false, features = ["wgsl"] }
