use renology_reader::renogy::{
    charging_state_label, crc16, is_renogy_name, read_request, word, ChargerData, ResponseBuffer,
    StateInfo, DEVICE_ID, DYNAMIC_REG, DYNAMIC_WORDS, STATE_REG, STATE_WORDS,
};

/// Builds a function-0x03 response frame for `data`, CRC low byte first.
fn response(device_id: u8, data: &[u8]) -> Vec<u8> {
    let mut frame = vec![device_id, 0x03, data.len() as u8];
    frame.extend_from_slice(data);
    let crc = crc16(&frame);
    frame.push(crc as u8);
    frame.push((crc >> 8) as u8);
    frame
}

fn dynamic_block() -> Vec<u8> {
    let mut data = vec![0u8; 60];
    let words: [(usize, u16); 13] = [
        (0, 87),    // soc
        (1, 128),   // house volts x10
        (2, 1234),  // charge amps x100
        (4, 141),   // start volts x10
        (5, 800),   // alt amps x100
        (6, 110),   // alt watts
        (7, 190),   // solar volts x10
        (8, 250),   // solar amps x100
        (9, 47),    // solar watts
        (11, 121),  // min volts x10
        (12, 144),  // max volts x10
        (17, 33),   // amp-hours today
        (10, 0xBEEF), // not decoded
    ];
    for (i, v) in words {
        data[2 * i] = (v >> 8) as u8;
        data[2 * i + 1] = v as u8;
    }
    data[6] = 0x19; // controller +25 C
    data[7] = 0x85; // battery -5 C
    data
}

#[test]
fn labels_for_every_state() {
    assert_eq!(charging_state_label(0), "STDBY");
    assert_eq!(charging_state_label(1), "ACTIV");
    assert_eq!(charging_state_label(2), "MPPT");
    assert_eq!(charging_state_label(3), "EQLZ");
    assert_eq!(charging_state_label(4), "BOOST");
    assert_eq!(charging_state_label(5), "FLOAT");
    assert_eq!(charging_state_label(6), "LIMIT");
    assert_eq!(charging_state_label(7), "?");
    assert_eq!(charging_state_label(8), "DCDC");
    assert_eq!(charging_state_label(9), "?");
    assert_eq!(charging_state_label(255), "?");
}

#[test]
fn renogy_names_by_prefix() {
    assert!(is_renogy_name("BT-TH-6A1B2C3D"));
    assert!(is_renogy_name("BT-TH"));
    assert!(!is_renogy_name("BT-T"));
    assert!(!is_renogy_name("bt-th-1234"));
    assert!(!is_renogy_name("XBT-TH"));
    assert!(!is_renogy_name(""));
}

#[test]
fn word_is_big_endian() {
    let data = [0x01, 0x02, 0xAB, 0xCD];
    assert_eq!(word(&data, 0), 0x0102);
    assert_eq!(word(&data, 1), 0xABCD);
}

#[test]
fn crc16_known_vector() {
    assert_eq!(crc16(&[0x01, 0x03, 0x00, 0x00, 0x00, 0x0A]), 0xCDC5);
    assert_eq!(crc16(&[]), 0xFFFF);
}

#[test]
fn read_request_frames() {
    assert_eq!(
        read_request(0x01, 0x0000, 10),
        [0x01, 0x03, 0x00, 0x00, 0x00, 0x0A, 0xC5, 0xCD]
    );
    assert_eq!(
        read_request(DEVICE_ID, DYNAMIC_REG, DYNAMIC_WORDS),
        [0xFF, 0x03, 0x01, 0x00, 0x00, 0x1E, 0xD1, 0xE0]
    );
    assert_eq!(
        read_request(DEVICE_ID, STATE_REG, STATE_WORDS),
        [0xFF, 0x03, 0x01, 0x20, 0x00, 0x03, 0x10, 0x23]
    );
}

#[test]
fn request_round_trips_through_word() {
    let frame = read_request(0x11, 0xABCD, 0x0123);
    assert_eq!(frame[0], 0x11);
    assert_eq!(frame[1], 0x03);
    assert_eq!(word(&frame, 1), 0xABCD);
    assert_eq!(word(&frame, 2), 0x0123);
    let crc = crc16(&frame[..6]);
    assert_eq!(u16::from_le_bytes([frame[6], frame[7]]), crc);
}

#[test]
fn charger_data_decodes_register_map() {
    let data = dynamic_block();
    let d = ChargerData::parse(&data).unwrap();
    assert_eq!(d.soc, 87);
    assert_eq!(d.house_volts_x10, 128);
    assert_eq!(d.charge_amps_x100, 1234);
    assert_eq!(d.start_volts_x10, 141);
    assert_eq!(d.alt_amps_x100, 800);
    assert_eq!(d.alt_watts, 110);
    assert_eq!(d.solar_volts_x10, 190);
    assert_eq!(d.solar_amps_x100, 250);
    assert_eq!(d.solar_watts, 47);
    assert_eq!(d.controller_temp, 25);
    assert_eq!(d.battery_temp, -5);
    assert_eq!(d.min_volts_x10, 121);
    assert_eq!(d.max_volts_x10, 144);
    assert_eq!(d.ah_today, 33);
    assert_eq!(d.input_watts(), 157);
}

#[test]
fn charger_data_needs_36_bytes() {
    let data = dynamic_block();
    assert!(ChargerData::parse(&data[..35]).is_none());
    assert!(ChargerData::parse(&data[..36]).is_some());
    assert!(ChargerData::parse(&[]).is_none());
}

#[test]
fn temperatures_are_sign_magnitude() {
    let mut data = vec![0u8; 36];
    data[6] = 0x80; // minus zero
    data[7] = 0xFF; // -127
    let d = ChargerData::parse(&data).unwrap();
    assert_eq!(d.controller_temp, 0);
    assert_eq!(d.battery_temp, -127);
    data[6] = 0x7F;
    data[7] = 0x00;
    let d = ChargerData::parse(&data).unwrap();
    assert_eq!(d.controller_temp, 127);
    assert_eq!(d.battery_temp, 0);
}

#[test]
fn state_info_decodes() {
    let data = [0x00, 0x05, 0x12, 0x34, 0x80, 0x01];
    let s = StateInfo::parse(&data).unwrap();
    assert_eq!(s.charging_state, 5);
    assert_eq!(charging_state_label(s.charging_state), "FLOAT");
    assert_eq!(s.faults, [0x1234, 0x8001]);
    assert!(StateInfo::parse(&data[..5]).is_none());
}

#[test]
fn whole_response_in_one_fragment() {
    let data = dynamic_block();
    let frame = response(0xFF, &data);
    let mut buf = ResponseBuffer::new();
    assert_eq!(buf.feed(&frame), Some(&data[..]));
}

#[test]
fn response_reassembled_from_fragments() {
    let data = dynamic_block();
    let frame = response(0xFF, &data);
    assert_eq!(frame.len(), 65);
    let mut buf = ResponseBuffer::new();
    assert_eq!(buf.feed(&frame[..1]), None);
    assert_eq!(buf.feed(&frame[1..2]), None);
    assert_eq!(buf.feed(&[]), None);
    assert_eq!(buf.feed(&frame[2..20]), None);
    assert_eq!(buf.feed(&frame[20..64]), None);
    assert_eq!(buf.feed(&frame[64..]), Some(&data[..]));
    // The buffer is empty again: the next frame assembles from scratch.
    let small = response(0x01, &[0x00, 0x05, 0x12, 0x34, 0x80, 0x01]);
    assert_eq!(buf.feed(&small), Some(&[0x00, 0x05, 0x12, 0x34, 0x80, 0x01][..]));
}

#[test]
fn trailing_bytes_after_frame_are_dropped() {
    let frame = response(0x01, &[0xAA, 0xBB]);
    let mut bytes = frame.clone();
    bytes.extend_from_slice(&[0x01, 0x03]);
    let mut buf = ResponseBuffer::new();
    assert_eq!(buf.feed(&bytes), Some(&[0xAA, 0xBB][..]));
    // Nothing of the trailing bytes stayed behind.
    assert_eq!(buf.feed(&frame), Some(&[0xAA, 0xBB][..]));
}

#[test]
fn bad_crc_is_refused() {
    let mut frame = response(0xFF, &[0x00, 0x2A]);
    let last = frame.len() - 1;
    frame[last] ^= 0x01;
    let mut buf = ResponseBuffer::new();
    assert_eq!(buf.feed(&frame), None);
    // The broken frame was dropped; a good one follows cleanly.
    let good = response(0xFF, &[0x00, 0x2A]);
    assert_eq!(buf.feed(&good), Some(&[0x00, 0x2A][..]));
}

#[test]
fn error_response_is_dropped() {
    let mut buf = ResponseBuffer::new();
    assert_eq!(buf.feed(&[0xFF, 0x83, 0x02]), None);
    let good = response(0xFF, &[0x12, 0x34]);
    assert_eq!(buf.feed(&good), Some(&[0x12, 0x34][..]));
}

#[test]
fn reset_discards_partial_frame() {
    let good = response(0xFF, &[0x12, 0x34]);
    let mut buf = ResponseBuffer::default();
    assert_eq!(buf.feed(&good[..4]), None);
    buf.reset();
    assert_eq!(buf.feed(&good), Some(&[0x12, 0x34][..]));
}

#[test]
fn oversized_frame_never_completes() {
    // A byte count of 252 needs 257 bytes, one more than the buffer holds.
    let mut bytes = vec![0xFF, 0x03, 252];
    bytes.extend(std::iter::repeat(0u8).take(300));
    let mut buf = ResponseBuffer::new();
    assert_eq!(buf.feed(&bytes), None);
    assert_eq!(buf.feed(&[0, 0, 0]), None);
}

#[test]
fn largest_frame_fits() {
    let data: Vec<u8> = (0..251u32).map(|i| i as u8).collect();
    let frame = response(0x07, &data);
    assert_eq!(frame.len(), 256);
    let mut buf = ResponseBuffer::new();
    assert_eq!(buf.feed(&frame[..100]), None);
    assert_eq!(buf.feed(&frame[100..]), Some(&data[..]));
}

#[test]
fn crc16_detects_single_bit_flips() {
    let msg = [0xFF, 0x03, 0x01, 0x00, 0x00, 0x1E];
    let crc = crc16(&msg);
    for k in 0..msg.len() {
        for bit in 0..8 {
            let mut flipped = msg;
            flipped[k] ^= 1 << bit;
            assert_ne!(crc16(&flipped), crc);
        }
    }
}

#[test]
fn empty_fragments_after_completion_return_nothing() {
    let frame = response(0x01, &[0x0A, 0x0B]);
    let mut buf = ResponseBuffer::new();
    assert_eq!(buf.feed(&frame[..3]), None);
    assert_eq!(buf.feed(&frame[3..]), Some(&[0x0A, 0x0B][..]));
    assert_eq!(buf.feed(&[]), None);
    assert_eq!(buf.feed(&[]), None);
}
