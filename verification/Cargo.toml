[package]
name = "rzero"
version = "0.1.0"
edition = "2021"
publish = false

[dependencies]
sample = "=0.10.0"
dasp_ring_buffer = "*"
dasp_rms = "*"
dasp_frame = "*"
dasp_sample = "*"
dasp_slice = "*"
hound = "=3.5.1"
clap = "=2.34.0"
rustplotlib = "=0.0.4"
