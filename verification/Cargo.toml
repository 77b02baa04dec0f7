[package]
name = "engine"
version = "0.1.0"
edition = "2021"
publish = false

[dependencies]
base64 = "=0.21.7"
urlencoding = "=2.1.3"
rand = "=0.8.8"
slotmap = "=1.1.1"
hashbrown = "=0.14.5"
glam = "=0.24.2"
log = "=0.4.35"
serde = { version = "=1.0.229", features = ["derive"] }
serde_json = "=1.0.154"
gltf = { version = "1", features = ["KHR_lights_punctual"] }
image = { version = "0.25", default-features = false, features = ["png", "jpeg"] }
env_logger = "0.11"
dotenv = "0.15"
