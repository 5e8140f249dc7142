[package]
name = "null_os"
version = "0.1.0"
edition = "2021"
publish = false

[dependencies]
hashbrown = "=0.14.5"
x86_64 = { version = "=0.15.5", default-features = false, features = ["instructions"] }
volatile = "=0.2.7"
spin = "=0.9.9"
lazy_static = { version = "=1.5.1", features = ["spin_no_std"] }
pic8259 = { version = "=0.11.0", default-features = false, features = ["stable"] }
linked_list_allocator = { version = "=0.9.1", default-features = false, features = ["use_spin"] }
bootloader = "=0.9.35"
fatfs = "=0.3.6"
derive_more = "=0.99.20"
