[package]
name = "ertw"
version = "0.1.0"
edition = "2021"
publish = false

[dependencies]
rand = "=0.8.8"
rand_chacha = "=0.3.1"
blake3 = "=1.8.7"
noise = "=0.9.0"
serde = { version = "1", features = ["derive"] }
serde_json = "1"
bevy = { version = "=0.19.1", default-features = false, features = ["std"] }
avian2d = { version = "=0.7.0", default-features = false, features = ["2d", "f32", "parry-f32", "xpbd_joints"] }
