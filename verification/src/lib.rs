//! Renogy DC-DC charger monitor: Modbus-over-BLE framing and decoding, the
//! decisions of the polling loop, and the SH1106 OLED framebuffer with its
//! 8x8 text rendering and screen layouts.
pub mod advert;
pub mod font;
pub mod monitor;
pub mod renogy;
pub mod screen;
pub mod sh1106;
