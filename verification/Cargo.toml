[package]
name = "eventcv_core"
version = "0.1.0"
edition = "2021"
publish = false

[dependencies]
lz4 = "=1.28.1"
zstd = "=0.13.4"
rayon = "=1.12.0"
ndarray = "=0.16.1"
npyz = { version = "=0.8.4", features = ["npz", "derive"] }
zip = { version = "=0.6.6", default-features = false, features = ["deflate"] }
rosbag = "=0.6.3"
rand = { version = "=0.8.8", features = ["small_rng"] }
rand_distr = "=0.4.3"
serde = { version = "=1.0.229", features = ["derive"] }
tokio = { version = "=1.54.1", features = ["rt-multi-thread"] }
libloading = "=0.8.9"
hdf5-metno = { version = "=0.15.1", features = ["static"] }
hdf5-metno-sys = "=0.12.5"
ort = { version = "=2.0.0-rc.15", default-features = false, features = ["load-dynamic"] }
