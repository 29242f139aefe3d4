[package]
name = "sim800l"
version = "0.1.0"
edition = "2021"
publish = false

[dependencies]
cortex-m = "0.7"
cortex-m-rt = "0.7"
embedded-drivers = "*"
lsm303dlhc = "0.2"
panic-rtt-target = { version = "=0.1.2", features = ["cortex-m"] }
rtt-target = { version = "0.3", features = ["cortex-m"] }
shared-bus = "0.3"
stm32f1xx-hal = { version = "0.10", features = ["stm32f103", "rt", "medium", "stm32-usbd"] }
usb-device = "0.2"
usbd-serial = "0.1"
