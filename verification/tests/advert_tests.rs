use renology_reader::advert::{advertised_name, is_renogy_adv};

fn ad(ty: u8, data: &[u8]) -> Vec<u8> {
    let mut out = vec![data.len() as u8 + 1, ty];
    out.extend_from_slice(data);
    out
}

#[test]
fn complete_name_is_found() {
    let mut data = ad(0x01, &[0x06]);
    data.extend(ad(0x09, b"BT-TH-6A1B2C3D"));
    assert_eq!(advertised_name(&data).as_deref(), Some("BT-TH-6A1B2C3D"));
    assert!(is_renogy_adv(&data));
}

#[test]
fn shortened_name_counts_and_last_name_wins() {
    let mut data = ad(0x09, b"BT-TH-1234");
    data.extend(ad(0xFF, &[0x01, 0x02, 0x03]));
    data.extend(ad(0x08, b"Other"));
    assert_eq!(advertised_name(&data).as_deref(), Some("Other"));
    assert!(!is_renogy_adv(&data));
}

#[test]
fn no_name_or_bad_utf8() {
    let data = ad(0x01, &[0x06]);
    assert_eq!(advertised_name(&data), None);
    assert!(!is_renogy_adv(&data));
    let bad = ad(0x09, &[b'B', b'T', 0xFF, 0xFE]);
    assert_eq!(advertised_name(&bad), None);
    assert!(!is_renogy_adv(&bad));
    assert_eq!(advertised_name(&[]), None);
}

#[test]
fn malformed_items_are_skipped() {
    // A zero length byte is a decode error; decoding goes on after it.
    let mut data = vec![0x00];
    data.extend(ad(0x09, b"BT-TH-99"));
    assert_eq!(advertised_name(&data).as_deref(), Some("BT-TH-99"));
    assert!(is_renogy_adv(&data));
    // A structure that runs past the end is an error too.
    let mut cut = ad(0x09, b"BT-TH-77");
    cut.extend([0x09, 0x09, b'X']);
    assert_eq!(advertised_name(&cut).as_deref(), Some("BT-TH-77"));
}
