[package]
name = "renology_reader"
version = "0.1.0"
edition = "2021"
publish = false

[dependencies]
font8x8 = "*"
esp-hal = "*"
esp-rtos = "*"
esp-radio = "*"
esp-println = "*"
esp-alloc = "*"
esp-bootloader-esp-idf = "*"
embassy-executor = "*"
embassy-futures = "*"
embassy-time = "*"
trouble-host = "*"
bt-hci = "*"
critical-section = "*"
