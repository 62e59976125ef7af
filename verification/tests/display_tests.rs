use renology_reader::font::glyph;
use renology_reader::screen::{fmt_decimal, fmt_volts, show_data, show_extras, show_status};
use renology_reader::renogy::{ChargerData, StateInfo};
use renology_reader::sh1106::{Sh1106, SpiWrite};

/// The framebuffer bytes as the flush writes carry them, page by page.
fn frame_bytes(display: &Sh1106) -> Vec<u8> {
    let mut bytes = Vec::new();
    for w in display.flush() {
        if let SpiWrite::Data(d) = w {
            bytes.extend_from_slice(&d);
        }
    }
    bytes
}

fn lit(bytes: &[u8], x: usize, y: usize) -> bool {
    bytes[(y / 8) * 128 + x] >> (y % 8) & 1 == 1
}

fn lit_pixels(display: &Sh1106) -> Vec<(usize, usize)> {
    let bytes = frame_bytes(display);
    let mut out = Vec::new();
    for y in 0..64 {
        for x in 0..128 {
            if lit(&bytes, x, y) {
                out.push((x, y));
            }
        }
    }
    out
}

#[test]
fn flush_addresses_each_page() {
    let display = Sh1106::new();
    let writes = display.flush();
    assert_eq!(writes.len(), 32);
    for page in 0..8u8 {
        let i = 4 * page as usize;
        assert_eq!(writes[i], SpiWrite::Command(0xB0 + page));
        assert_eq!(writes[i + 1], SpiWrite::Command(0x02));
        assert_eq!(writes[i + 2], SpiWrite::Command(0x10));
        assert_eq!(writes[i + 3], SpiWrite::Data(vec![0u8; 128]));
    }
}

#[test]
fn init_sequence_wraps_a_flush() {
    let display = Sh1106::new();
    let writes = display.init_writes();
    assert_eq!(writes.len(), 37);
    assert_eq!(writes[0], SpiWrite::Command(0xAE));
    assert_eq!(writes[1], SpiWrite::Command(0xA0));
    assert_eq!(writes[2], SpiWrite::Command(0xC0));
    assert_eq!(writes[3], SpiWrite::Command(0xA6));
    assert_eq!(&writes[4..36], &display.flush()[..]);
    assert_eq!(writes[36], SpiWrite::Command(0xAF));
}

#[test]
fn set_pixel_sets_one_bit() {
    let mut display = Sh1106::new();
    display.set_pixel(0, 0);
    display.set_pixel(127, 63);
    display.set_pixel(5, 10);
    display.set_pixel(5, 10);
    let bytes = frame_bytes(&display);
    assert_eq!(bytes[0], 0x01);
    assert_eq!(bytes[7 * 128 + 127], 0x80);
    assert_eq!(bytes[128 + 5], 0x04);
    assert_eq!(lit_pixels(&display), vec![(0, 0), (5, 10), (127, 63)]);
}

#[test]
fn set_pixel_clips_off_screen() {
    let mut display = Sh1106::new();
    display.set_pixel(-1, 0);
    display.set_pixel(0, -1);
    display.set_pixel(128, 0);
    display.set_pixel(0, 64);
    display.set_pixel(i32::MIN, i32::MAX);
    assert!(lit_pixels(&display).is_empty());
}

#[test]
fn clear_blanks_everything() {
    let mut display = Sh1106::new();
    display.draw_text("HELLO", 0, 0, 2);
    assert!(!lit_pixels(&display).is_empty());
    display.clear();
    assert!(lit_pixels(&display).is_empty());
}

#[test]
fn glyph_comes_from_font_table() {
    assert_eq!(glyph('A'), [0x0C, 0x1E, 0x33, 0x33, 0x3F, 0x33, 0x33, 0x00]);
    assert_eq!(glyph('L'), [0x0F, 0x06, 0x06, 0x06, 0x46, 0x66, 0x7F, 0x00]);
    assert_eq!(glyph(' '), [0; 8]);
    assert_eq!(glyph('\u{7F}'), [0; 8]);
    assert_eq!(glyph('é'), [0; 8]);
    assert_eq!(glyph('\u{80}'), [0; 8]);
}

#[test]
fn draw_text_lsb_is_leftmost() {
    let mut display = Sh1106::new();
    display.draw_text("L", 0, 0, 1);
    let pixels = lit_pixels(&display);
    // Row 0 of 'L' is 0x0F: its set bits 0..3 are columns 0..3.
    for x in 0..4 {
        assert!(pixels.contains(&(x, 0)));
    }
    for x in 4..8 {
        assert!(!pixels.contains(&(x, 0)));
    }
    // Row 6 is 0x7F: columns 0..6.
    for x in 0..7 {
        assert!(pixels.contains(&(x, 6)));
    }
    assert!(!pixels.contains(&(7, 6)));
    let expected: usize = glyph('L').iter().map(|b| b.count_ones() as usize).sum();
    assert_eq!(pixels.len(), expected);
}

#[test]
fn draw_glyph_given_rows() {
    let mut display = Sh1106::new();
    display.draw_glyph([0x01, 0, 0, 0, 0, 0, 0, 0x80], 0, 0, 1);
    assert_eq!(lit_pixels(&display), vec![(0, 0), (7, 7)]);
    let mut big = Sh1106::new();
    big.draw_glyph([0x02, 0, 0, 0, 0, 0, 0, 0], 10, 20, 3);
    let mut expected = Vec::new();
    for y in 20..23 {
        for x in 13..16 {
            expected.push((x, y));
        }
    }
    assert_eq!(lit_pixels(&big), expected);
}

#[test]
fn draw_text_scales_blocks() {
    let mut one = Sh1106::new();
    one.draw_text("A1", 3, 5, 1);
    let mut two = Sh1106::new();
    two.draw_text("A1", 3, 5, 2);
    let small = lit_pixels(&one);
    let big = lit_pixels(&two);
    assert_eq!(big.len(), 4 * small.len());
    for (x, y) in small {
        // Font pixel (x, y) relative to (3, 5) becomes a 2x2 block.
        let (fx, fy) = (x - 3, y - 5);
        for dy in 0..2 {
            for dx in 0..2 {
                assert!(big.contains(&(3 + 2 * fx + dx, 5 + 2 * fy + dy)));
            }
        }
    }
}

#[test]
fn draw_text_second_char_offset() {
    let mut a = Sh1106::new();
    a.draw_text(" L", 10, 20, 1);
    let mut b = Sh1106::new();
    b.draw_text("L", 18, 20, 1);
    assert_eq!(frame_bytes(&a), frame_bytes(&b));
}

#[test]
fn draw_text_clips_and_zero_scale_draws_nothing() {
    let mut display = Sh1106::new();
    display.draw_text("AAAAAAAAAAAAAAAAAAAA", 120, 60, 1);
    for (x, y) in lit_pixels(&display) {
        assert!(x >= 120 && y >= 60);
    }
    let mut blank = Sh1106::new();
    blank.draw_text("AAAA", 0, 0, 0);
    blank.draw_text("AAAA", 50, 10, -3);
    blank.draw_text("é€", 0, 0, 1);
    assert!(lit_pixels(&blank).is_empty());
}

#[test]
fn decimal_and_volts_formatting() {
    assert_eq!(fmt_decimal(0), "0");
    assert_eq!(fmt_decimal(7), "7");
    assert_eq!(fmt_decimal(1234), "1234");
    assert_eq!(fmt_decimal(65535), "65535");
    assert_eq!(fmt_volts(128), "12.8V");
    assert_eq!(fmt_volts(5), "0.5V");
    assert_eq!(fmt_volts(0), "0.0V");
    assert_eq!(fmt_volts(65535), "6553.5V");
}

#[test]
fn status_screen_layout() {
    let mut display = Sh1106::new();
    display.draw_text("junk", 0, 0, 3);
    let writes = show_status(&mut display, "Scanning for", "Renogy...");
    let mut expected = Sh1106::new();
    expected.draw_text("gobble gobble", 12, 0, 1);
    expected.draw_text("Scanning for", 0, 28, 1);
    expected.draw_text("Renogy...", 0, 40, 1);
    assert_eq!(writes, expected.flush());
    assert_eq!(frame_bytes(&display), frame_bytes(&expected));
}

#[test]
fn data_screen_layout() {
    let d = ChargerData {
        soc: 87,
        house_volts_x10: 128,
        charge_amps_x100: 1234,
        start_volts_x10: 141,
        alt_watts: 110,
        solar_watts: 47,
        ..ChargerData::default()
    };
    let state = StateInfo { charging_state: 4, faults: [0, 0] };
    let mut display = Sh1106::new();
    let writes = show_data(&mut display, &d, &state);
    let mut expected = Sh1106::new();
    expected.draw_text("HOUSE", 0, 0, 1);
    expected.draw_text("87%", 128 - 8 * 3, 0, 1);
    expected.draw_text("12.8V", 0, 9, 2);
    expected.draw_text("START", 0, 28, 1);
    expected.draw_text("BOOST", 128 - 8 * 5, 28, 1);
    expected.draw_text("14.1V", 0, 37, 2);
    expected.draw_text("CHG 12.3A IN 157W", 0, 56, 1);
    assert_eq!(writes, expected.flush());
}

#[test]
fn data_screen_soc_and_state_are_right_aligned() {
    let d = ChargerData { soc: 100, ..ChargerData::default() };
    let state = StateInfo { charging_state: 8, faults: [0, 0] };
    let mut display = Sh1106::new();
    show_data(&mut display, &d, &state);
    let mut expected = Sh1106::new();
    expected.draw_text("HOUSE", 0, 0, 1);
    expected.draw_text("100%", 96, 0, 1);
    expected.draw_text("0.0V", 0, 9, 2);
    expected.draw_text("START", 0, 28, 1);
    expected.draw_text("DCDC", 96, 28, 1);
    expected.draw_text("0.0V", 0, 37, 2);
    expected.draw_text("CHG 0.0A IN 0W", 0, 56, 1);
    assert_eq!(frame_bytes(&display), frame_bytes(&expected));
}

#[test]
fn data_screen_input_power_beyond_u16() {
    let d = ChargerData { alt_watts: 65535, solar_watts: 10, ..ChargerData::default() };
    let state = StateInfo { charging_state: 9, faults: [0, 0] };
    let mut display = Sh1106::new();
    show_data(&mut display, &d, &state);
    let mut expected = Sh1106::new();
    expected.draw_text("HOUSE", 0, 0, 1);
    expected.draw_text("0%", 112, 0, 1);
    expected.draw_text("0.0V", 0, 9, 2);
    expected.draw_text("START", 0, 28, 1);
    expected.draw_text("?", 120, 28, 1);
    expected.draw_text("0.0V", 0, 37, 2);
    expected.draw_text("CHG 0.0A IN 65545W", 0, 56, 1);
    assert_eq!(frame_bytes(&display), frame_bytes(&expected));
}

#[test]
fn blank_text_at_the_edge_of_i32() {
    let mut display = Sh1106::new();
    display.draw_text(" ", i32::MAX, 0, 1);
    display.draw_text("  ", 0, i32::MAX, 3);
    assert!(lit_pixels(&display).is_empty());
}

#[test]
fn extras_screen_layout() {
    let d = ChargerData {
        start_volts_x10: 141,
        alt_amps_x100: 800,
        solar_volts_x10: 190,
        solar_amps_x100: 250,
        alt_watts: 110,
        solar_watts: 47,
        controller_temp: 25,
        battery_temp: -5,
        min_volts_x10: 121,
        max_volts_x10: 144,
        ah_today: 33,
        ..ChargerData::default()
    };
    let st = StateInfo { charging_state: 2, faults: [0x00A0, 0x1F02] };
    let mut display = Sh1106::new();
    display.draw_text("junk", 0, 0, 2);
    let writes = show_extras(&mut display, &d, &st);
    let mut expected = Sh1106::new();
    let lines = [
        "ALT 14.1V 8.0A",
        "SOL 19.0V 2.5A",
        "IN 157W",
        "CTL 25C BAT -5C",
        "DAY 12.1V-14.4V",
        "AH 33",
        "FLT 00A0 1F02",
    ];
    for (k, line) in lines.iter().enumerate() {
        expected.draw_text(line, 0, 9 * k as i32, 1);
    }
    assert_eq!(writes, expected.flush());
}
