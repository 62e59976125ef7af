# renology_reader

Verified core of an ESP32 battery monitor for a Renogy RBC2125DS DC-DC
charger: it polls the charger over Bluetooth LE (Modbus RTU tunnelled over
GATT) and shows the readings on an SH1106 128x64 OLED.

- `src/renogy.rs` — register map, Modbus CRC16, request frames, response
  reassembly from notification fragments, decoding; the reassembly and
  request laws.
- `src/advert.rs` — the name a device advertises (decoded with
  `trouble-host`) and whether it marks a Renogy charger.
- `src/monitor.rs` — the polling loop's decisions (when a reply is complete,
  when to give up on a link, which screen shows) and its timings.
- `src/sh1106.rs` — the framebuffer, pixel and text drawing, and the SPI
  write sequences for flushing and power-on.
- `src/font.rs` — glyph lookup in the `font8x8` basic-latin table.
- `src/screen.rs` — number formatting and the status, main and extras screens.
- `app/main.rs` — the firmware: BLE scanning, connecting and GATT I/O, the
  SPI/GPIO driver, timing.
