use renology_reader::monitor::{
    screen_at, take_reply, take_state_reply, PollAction, PollState, Screen, MAX_MISSES,
};
use renology_reader::renogy::{crc16, ChargerData, ResponseBuffer, StateInfo};

fn response(data: &[u8]) -> Vec<u8> {
    let mut frame = vec![0xFF, 0x03, data.len() as u8];
    frame.extend_from_slice(data);
    let crc = crc16(&frame);
    frame.push(crc as u8);
    frame.push((crc >> 8) as u8);
    frame
}

#[test]
fn reply_waits_for_whole_frame() {
    let mut data = vec![0u8; 60];
    data[1] = 42; // soc
    let frame = response(&data);
    let mut buf = ResponseBuffer::new();
    assert!(take_reply(&mut buf, &frame[..30]).is_none());
    let reply = take_reply(&mut buf, &frame[30..]).unwrap().unwrap();
    assert_eq!(reply.soc, 42);
}

#[test]
fn short_reply_ends_wait_without_data() {
    let frame = response(&[0x00, 0x01]);
    let mut buf = ResponseBuffer::new();
    assert!(matches!(take_reply(&mut buf, &frame), Some(None)));
}

#[test]
fn fifth_miss_disconnects() {
    let mut state = PollState::new();
    for _ in 1..MAX_MISSES {
        assert!(matches!(state.after_poll(None), PollAction::Retry));
    }
    assert_eq!(state.misses, 4);
    assert!(matches!(state.after_poll(None), PollAction::Disconnect));
}

#[test]
fn reply_resets_misses() {
    let mut state = PollState::new();
    assert!(matches!(state.after_poll(None), PollAction::Retry));
    assert!(matches!(state.after_poll(None), PollAction::Retry));
    let d = ChargerData { soc: 55, ..ChargerData::default() };
    let st = StateInfo { charging_state: 5, faults: [1, 2] };
    match state.after_poll(Some((d, st))) {
        PollAction::Show(shown, shown_state) => {
            assert_eq!(shown.soc, 55);
            assert_eq!(shown_state.charging_state, 5);
            assert_eq!(shown_state.faults, [1, 2]);
        }
        _ => panic!("expected the readings to be shown"),
    }
    assert_eq!(state.misses, 0);
    for _ in 1..MAX_MISSES {
        assert!(matches!(state.after_poll(None), PollAction::Retry));
    }
}

#[test]
fn state_reply_decodes_when_whole() {
    let frame = response(&[0x00, 0x02, 0x00, 0x10, 0x80, 0x00]);
    let mut buf = ResponseBuffer::new();
    assert!(take_state_reply(&mut buf, &frame[..5]).is_none());
    let st = take_state_reply(&mut buf, &frame[5..]).unwrap().unwrap();
    assert_eq!(st.charging_state, 2);
    assert_eq!(st.faults, [0x0010, 0x8000]);
    let short = response(&[0x00, 0x02]);
    assert!(matches!(take_state_reply(&mut buf, &short), Some(None)));
}

#[test]
fn screens_alternate_every_twenty_seconds() {
    assert_eq!(screen_at(0), Screen::Main);
    assert_eq!(screen_at(19_999), Screen::Main);
    assert_eq!(screen_at(20_000), Screen::Extras);
    assert_eq!(screen_at(39_999), Screen::Extras);
    assert_eq!(screen_at(40_000), Screen::Main);
    assert_eq!(screen_at(65_000), Screen::Extras);
}
