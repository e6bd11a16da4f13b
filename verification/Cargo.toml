[package]
name = "bad_apple"
version = "0.1.0"
edition = "2021"
publish = false

[dependencies]
fast_image_resize = "*"
libm = "*"
linked_list_allocator = "*"
resize = "*"
rgb = "*"
thiserror = "*"
uefi = { version = "*", features = ["alloc"] }
zune-png = "*"
