//! Renogy BT protocol: Modbus RTU frames carried over BLE GATT
//! (write requests to 0xFFD1, receive responses as notifications on 0xFFF1).
//!
//! Protocol as implemented by cyrils/renogy-bt and IAmTheMitchell/renogy-ble
//! for the RBC/DCC series DC-DC chargers.
use vstd::prelude::*;

verus! {

/// Renogy BT devices advertise a name starting with this prefix.
pub const NAME_PREFIX: &'static str = "BT-TH";

/// GATT service/characteristic holding the Modbus write characteristic.
pub const WRITE_SERVICE: u16 = 0xFFD0;

pub const WRITE_CHAR: u16 = 0xFFD1;

/// GATT service/characteristic delivering Modbus responses as notifications.
pub const NOTIFY_SERVICE: u16 = 0xFFF0;

pub const NOTIFY_CHAR: u16 = 0xFFF1;

/// Broadcast device id; works for a stand-alone (non-hub) charger.
pub const DEVICE_ID: u8 = 0xFF;

/// Start of the DC-DC charger's dynamic data block.
pub const DYNAMIC_REG: u16 = 0x0100;

pub const DYNAMIC_WORDS: u16 = 30;

/// Charging state (low byte of 0x0120) and fault bits (0x0121, 0x0122).
pub const STATE_REG: u16 = 0x0120;

pub const STATE_WORDS: u16 = 3;

/// Modbus function code "read holding registers".
pub const READ_HOLDING: u8 = 0x03;

// ---------------------------------------------------------------------
// Charging state labels
// ---------------------------------------------------------------------

/// The label shown for each charging state code.
pub open spec fn charging_state_label_spec(state: u8) -> Seq<char> {
    if state == 0 {
        seq!['S', 'T', 'D', 'B', 'Y']
    } else if state == 1 {
        seq!['A', 'C', 'T', 'I', 'V']
    } else if state == 2 {
        seq!['M', 'P', 'P', 'T']
    } else if state == 3 {
        seq!['E', 'Q', 'L', 'Z']
    } else if state == 4 {
        seq!['B', 'O', 'O', 'S', 'T']
    } else if state == 5 {
        seq!['F', 'L', 'O', 'A', 'T']
    } else if state == 6 {
        seq!['L', 'I', 'M', 'I', 'T']
    } else if state == 8 {
        seq!['D', 'C', 'D', 'C']
    } else {
        seq!['?']
    }
}

/// Short display label for the charging state in the low byte of 0x0120.
pub fn charging_state_label(state: u8) -> (label: &'static str)
    ensures
        label@ == charging_state_label_spec(state),
{
    match state {
        0 => {
            // standby / deactivated
            proof {
                reveal_strlit("STDBY");
            }
            "STDBY"
        },
        1 => {
            // activated
            proof {
                reveal_strlit("ACTIV");
            }
            "ACTIV"
        },
        2 => {
            proof {
                reveal_strlit("MPPT");
            }
            "MPPT"
        },
        3 => {
            // equalizing
            proof {
                reveal_strlit("EQLZ");
            }
            "EQLZ"
        },
        4 => {
            proof {
                reveal_strlit("BOOST");
            }
            "BOOST"
        },
        5 => {
            proof {
                reveal_strlit("FLOAT");
            }
            "FLOAT"
        },
        6 => {
            // current limiting
            proof {
                reveal_strlit("LIMIT");
            }
            "LIMIT"
        },
        8 => {
            // alternator direct
            proof {
                reveal_strlit("DCDC");
            }
            "DCDC"
        },
        _ => {
            proof {
                reveal_strlit("?");
            }
            "?"
        },
    }
}

/// Whether an advertised device name marks a Renogy BT device: it starts
/// with [`NAME_PREFIX`].
pub open spec fn is_renogy_name_spec(name: Seq<char>) -> bool {
    name.len() >= 5 && name.subrange(0, 5) == seq!['B', 'T', '-', 'T', 'H']
}

/// True when `name` starts with [`NAME_PREFIX`].
pub fn is_renogy_name(name: &str) -> (found: bool)
    ensures
        found == is_renogy_name_spec(name@),
{
    proof {
        reveal_strlit("BT-TH");
    }
    let prefix = NAME_PREFIX;
    let prefix_len = prefix.unicode_len();
    let name_len = name.unicode_len();
    if name_len < prefix_len {
        return false;
    }
    let mut i: usize = 0;
    while i < prefix_len
        invariant
            prefix@ == seq!['B', 'T', '-', 'T', 'H'],
            prefix_len == 5,
            name_len == name@.len(),
            name_len >= 5,
            i <= 5,
            forall|j: int| 0 <= j < i ==> name@[j] == prefix@[j],
        decreases prefix_len - i,
    {
        if name.get_char(i) != prefix.get_char(i) {
            assert(name@.subrange(0, 5)[i as int] != seq!['B', 'T', '-', 'T', 'H'][i as int]);
            return false;
        }
        i = i + 1;
    }
    assert(name@.subrange(0, 5) =~= seq!['B', 'T', '-', 'T', 'H']);
    true
}

// ---------------------------------------------------------------------
// Register words and decoded values
// ---------------------------------------------------------------------

/// The big-endian 16-bit register word at word index `index` of `data`.
pub open spec fn be_word(data: Seq<u8>, index: int) -> u16 {
    (data[2 * index] as int * 256 + data[2 * index + 1] as int) as u16
}

/// Read a big-endian 16-bit register word out of response data.
pub fn word(data: &[u8], index: usize) -> (w: u16)
    requires
        2 * index + 1 < data@.len(),
    ensures
        w == be_word(data@, index as int),
        w as int == data@[2 * index] as int * 256 + data@[2 * index + 1] as int,
{
    let n = data.len();
    assert(2 * index + 1 < n);
    let hi = data[2 * index] as u16;
    let lo = data[2 * index + 1] as u16;
    hi * 256 + lo
}

/// A sign-magnitude temperature byte: bit 7 is the sign, bits 0..7 the
/// magnitude in degrees C.
pub open spec fn sign_magnitude(raw: u8) -> int {
    if raw >= 128 {
        -(raw as int - 128)
    } else {
        raw as int
    }
}

/// Temperatures are sign-magnitude: bit 7 = negative.
fn temp(raw: u8) -> (t: i8)
    ensures
        t as int == sign_magnitude(raw),
{
    assert(raw & 0x7F == raw % 128 && ((raw & 0x80 != 0) == (raw >= 128))) by (bit_vector);
    let magnitude = (raw & 0x7F) as i8;
    if raw & 0x80 != 0 {
        -magnitude
    } else {
        magnitude
    }
}

/// Live values decoded from the dynamic block at 0x0100.
#[derive(Clone, Copy, Debug, Default)]
pub struct ChargerData {
    /// House (auxiliary/service) battery state of charge, percent.
    pub soc: u16,
    /// House battery voltage, tenths of a volt.
    pub house_volts_x10: u16,
    /// Combined charge current (alternator + solar), hundredths of an amp.
    pub charge_amps_x100: u16,
    /// Alternator/starter battery voltage, tenths of a volt.
    pub start_volts_x10: u16,
    /// Alternator current, hundredths of an amp.
    pub alt_amps_x100: u16,
    /// Alternator power, watts.
    pub alt_watts: u16,
    /// Solar input voltage, tenths of a volt.
    pub solar_volts_x10: u16,
    /// Solar input current, hundredths of an amp.
    pub solar_amps_x100: u16,
    /// Solar power, watts.
    pub solar_watts: u16,
    /// Controller temperature, degrees C.
    pub controller_temp: i8,
    /// Battery temperature, degrees C.
    pub battery_temp: i8,
    /// Lowest house battery voltage today, tenths of a volt.
    pub min_volts_x10: u16,
    /// Highest house battery voltage today, tenths of a volt.
    pub max_volts_x10: u16,
    /// Amp-hours charged today.
    pub ah_today: u16,
}

/// Number of register-data bytes that a dynamic-block decode needs.
pub open spec fn charger_data_len() -> int {
    36
}

/// The register map of the dynamic block at 0x0100: which word holds which
/// value (word 3 holds both temperatures, controller in the high byte).
pub open spec fn charger_data_spec(data: Seq<u8>) -> ChargerData {
    ChargerData {
        soc: be_word(data, 0),
        house_volts_x10: be_word(data, 1),
        charge_amps_x100: be_word(data, 2),
        start_volts_x10: be_word(data, 4),
        alt_amps_x100: be_word(data, 5),
        alt_watts: be_word(data, 6),
        solar_volts_x10: be_word(data, 7),
        solar_amps_x100: be_word(data, 8),
        solar_watts: be_word(data, 9),
        controller_temp: sign_magnitude(data[6]) as i8,
        battery_temp: sign_magnitude(data[7]) as i8,
        min_volts_x10: be_word(data, 11),
        max_volts_x10: be_word(data, 12),
        ah_today: be_word(data, 17),
    }
}

/// The high and low bytes of a big-endian word are its two bytes.
proof fn lemma_word_bytes(w: u16, hi: u8, lo: u8)
    requires
        w as int == hi as int * 256 + lo as int,
    ensures
        (w >> 8) as u8 == hi,
        w as u8 == lo,
{
    assert((w >> 8) as u8 == hi && w as u8 == lo) by (bit_vector)
        requires
            w == hi * 256 + lo,
    ;
}

/// The register map, byte by byte: each reading is the whole big-endian
/// word (high byte first) at its word index, and the two temperatures are
/// the sign-magnitude bytes 6 (controller) and 7 (battery).
pub open spec fn decodes_register_map(data: Seq<u8>, d: ChargerData) -> bool {
    &&& d.soc as int == data[0] * 256 + data[1]
    &&& d.house_volts_x10 as int == data[2] * 256 + data[3]
    &&& d.charge_amps_x100 as int == data[4] * 256 + data[5]
    &&& d.start_volts_x10 as int == data[8] * 256 + data[9]
    &&& d.alt_amps_x100 as int == data[10] * 256 + data[11]
    &&& d.alt_watts as int == data[12] * 256 + data[13]
    &&& d.solar_volts_x10 as int == data[14] * 256 + data[15]
    &&& d.solar_amps_x100 as int == data[16] * 256 + data[17]
    &&& d.solar_watts as int == data[18] * 256 + data[19]
    &&& d.controller_temp as int == (if data[6] < 128 { data[6] as int } else { 128 - data[6] })
    &&& d.battery_temp as int == (if data[7] < 128 { data[7] as int } else { 128 - data[7] })
    &&& d.min_volts_x10 as int == data[22] * 256 + data[23]
    &&& d.max_volts_x10 as int == data[24] * 256 + data[25]
    &&& d.ah_today as int == data[34] * 256 + data[35]
}

/// The dynamic block decodes exactly when it has 36 bytes or more, and then
/// by the register map: every field is its whole big-endian word.
pub proof fn lemma_register_map(data: Seq<u8>)
    ensures
        charger_data_len() == 36,
        data.len() >= 36 ==> decodes_register_map(data, charger_data_spec(data)),
{
}

impl ChargerData {
    /// Power being drawn from the charger's input, watts. The RBC2125DS
    /// reports the active input under the solar/MPPT registers even when
    /// charging from the alternator, so sum both input slots.
    pub fn input_watts(&self) -> (w: u16)
        requires
            self.alt_watts + self.solar_watts <= u16::MAX,
        ensures
            w == self.alt_watts + self.solar_watts,
    {
        self.alt_watts + self.solar_watts
    }

    /// Decode from the register data of a read of DYNAMIC_REG.
    pub fn parse(data: &[u8]) -> (parsed: Option<Self>)
        ensures
            parsed is None <==> data@.len() < charger_data_len(),
            parsed matches Some(d) ==> d == charger_data_spec(data@),
            parsed matches Some(d) ==> decodes_register_map(data@, d),
    {
        if data.len() < 36 {
            return None;
        }
        let temps = word(data, 3);
        proof {
            lemma_word_bytes(temps, data@[6], data@[7]);
        }
        Some(
            Self {
                soc: word(data, 0),
                house_volts_x10: word(data, 1),
                charge_amps_x100: word(data, 2),
                start_volts_x10: word(data, 4),
                alt_amps_x100: word(data, 5),
                alt_watts: word(data, 6),
                solar_volts_x10: word(data, 7),
                solar_amps_x100: word(data, 8),
                solar_watts: word(data, 9),
                controller_temp: temp((temps >> 8) as u8),
                battery_temp: temp(temps as u8),
                min_volts_x10: word(data, 11),
                max_volts_x10: word(data, 12),
                ah_today: word(data, 17),
            },
        )
    }
}

/// Charging state and fault bits from the STATE_REG block.
#[derive(Clone, Copy, Debug)]
pub struct StateInfo {
    /// Charging state code; see [`charging_state_label`].
    pub charging_state: u8,
    /// Fault bit words from registers 0x0121 and 0x0122.
    pub faults: [u16; 2],
}

impl StateInfo {
    /// Decode from the register data of a read of STATE_REG.
    pub fn parse(data: &[u8]) -> (parsed: Option<Self>)
        ensures
            parsed is None <==> data@.len() < 6,
            parsed matches Some(s) ==> {
                &&& s.charging_state == data@[1]
                &&& s.charging_state as int == be_word(data@, 0) as int % 256
                &&& s.faults@ == seq![be_word(data@, 1), be_word(data@, 2)]
                &&& s.faults@[0] as int == data@[2] * 256 + data@[3]
                &&& s.faults@[1] as int == data@[4] * 256 + data@[5]
            },
    {
        if data.len() < 6 {
            return None;
        }
        let faults = [word(data, 1), word(data, 2)];
        assert(faults@ =~= seq![be_word(data@, 1), be_word(data@, 2)]);
        Some(
            Self {
                charging_state: data[1],  // low byte of 0x0120
                faults: faults,
            },
        )
    }
}

// ---------------------------------------------------------------------
// Modbus CRC16
// ---------------------------------------------------------------------

/// One bit step of the reflected Modbus CRC (polynomial 0xA001).
pub open spec fn crc_shift(crc: u16) -> u16 {
    if crc & 1 != 0 {
        (crc >> 1) ^ 0xA001
    } else {
        crc >> 1
    }
}

/// `n` bit steps of the CRC.
pub open spec fn crc_shifts(crc: u16, n: nat) -> u16
    decreases n,
{
    if n == 0 {
        crc
    } else {
        crc_shift(crc_shifts(crc, (n - 1) as nat))
    }
}

/// The CRC register after absorbing one byte.
pub open spec fn crc_update(crc: u16, byte: u8) -> u16 {
    crc_shifts(crc ^ (byte as u16), 8)
}

/// Standard Modbus CRC16 of a byte sequence (poly 0xA001, init 0xFFFF,
/// no final xor).
pub open spec fn crc16_spec(data: Seq<u8>) -> u16
    decreases data.len(),
{
    if data.len() == 0 {
        0xFFFF
    } else {
        crc_update(crc16_spec(data.drop_last()), data.last())
    }
}

/// The CRC absorbs a message byte by byte, the same step at every length:
/// it starts at 0xFFFF, and appending a byte updates it from the CRC of
/// the shorter message alone.
pub proof fn lemma_crc16_bytewise(data: Seq<u8>, byte: u8)
    ensures
        crc16_spec(Seq::<u8>::empty()) == 0xFFFFu16,
        crc16_spec(data.push(byte)) == crc_update(crc16_spec(data), byte),
{
    assert(data.push(byte).drop_last() =~= data);
}

/// Eight CRC bit steps, written out.
pub open spec fn crc_byte_steps(x: u16) -> u16 {
    crc_shift(crc_shift(crc_shift(crc_shift(crc_shift(crc_shift(crc_shift(crc_shift(x))))))))
}

/// Absorbing a byte xors it into the low byte of the register and then
/// takes eight bit steps.
pub proof fn lemma_crc_update_unfold(crc: u16, byte: u8)
    ensures
        crc_update(crc, byte) == crc_byte_steps(crc ^ (byte as u16)),
{
    reveal_with_fuel(crc_shifts, 9);
}

/// The CRC is the standard Modbus CRC: one bit step shifts right and xors
/// in 0xA001 exactly when the bit shifted out is set, and the catalogue
/// check value of "123456789" is 0x4B37.
pub proof fn lemma_crc16_is_modbus(crc: u16)
    ensures
        crc % 2 == 1 ==> crc_shift(crc) == (crc / 2) ^ 0xA001u16,
        crc % 2 == 0 ==> crc_shift(crc) == crc / 2,
        crc16_spec(seq![0x31u8, 0x32, 0x33, 0x34, 0x35, 0x36, 0x37, 0x38, 0x39]) == 0x4B37u16,
{
    assert((crc & 1 != 0) == (crc % 2 == 1) && crc >> 1 == crc / 2) by (bit_vector);
    let msg = seq![0x31u8, 0x32, 0x33, 0x34, 0x35, 0x36, 0x37, 0x38, 0x39];
    assert(msg.take(0) =~= Seq::<u8>::empty());
    lemma_crc16_bytewise(Seq::<u8>::empty(), 0u8);
    assert(crc_byte_steps(0xFFFFu16 ^ 0x31u16) == 0x947Eu16) by (bit_vector);
    lemma_crc_update_unfold(0xFFFFu16, 0x31u8);
    lemma_crc16_bytewise(msg.take(0), 0x31u8);
    assert(msg.take(0).push(0x31u8) =~= msg.take(1));
    assert(crc_byte_steps(0x947Eu16 ^ 0x32u16) == 0xF595u16) by (bit_vector);
    lemma_crc_update_unfold(0x947Eu16, 0x32u8);
    lemma_crc16_bytewise(msg.take(1), 0x32u8);
    assert(msg.take(1).push(0x32u8) =~= msg.take(2));
    assert(crc_byte_steps(0xF595u16 ^ 0x33u16) == 0x7A75u16) by (bit_vector);
    lemma_crc_update_unfold(0xF595u16, 0x33u8);
    lemma_crc16_bytewise(msg.take(2), 0x33u8);
    assert(msg.take(2).push(0x33u8) =~= msg.take(3));
    assert(crc_byte_steps(0x7A75u16 ^ 0x34u16) == 0x30BAu16) by (bit_vector);
    lemma_crc_update_unfold(0x7A75u16, 0x34u8);
    lemma_crc16_bytewise(msg.take(3), 0x34u8);
    assert(msg.take(3).push(0x34u8) =~= msg.take(4));
    assert(crc_byte_steps(0x30BAu16 ^ 0x35u16) == 0xA471u16) by (bit_vector);
    lemma_crc_update_unfold(0x30BAu16, 0x35u8);
    lemma_crc16_bytewise(msg.take(4), 0x35u8);
    assert(msg.take(4).push(0x35u8) =~= msg.take(5));
    assert(crc_byte_steps(0xA471u16 ^ 0x36u16) == 0x32E4u16) by (bit_vector);
    lemma_crc_update_unfold(0xA471u16, 0x36u8);
    lemma_crc16_bytewise(msg.take(5), 0x36u8);
    assert(msg.take(5).push(0x36u8) =~= msg.take(6));
    assert(crc_byte_steps(0x32E4u16 ^ 0x37u16) == 0x9D73u16) by (bit_vector);
    lemma_crc_update_unfold(0x32E4u16, 0x37u8);
    lemma_crc16_bytewise(msg.take(6), 0x37u8);
    assert(msg.take(6).push(0x37u8) =~= msg.take(7));
    assert(crc_byte_steps(0x9D73u16 ^ 0x38u16) == 0x37DDu16) by (bit_vector);
    lemma_crc_update_unfold(0x9D73u16, 0x38u8);
    lemma_crc16_bytewise(msg.take(7), 0x38u8);
    assert(msg.take(7).push(0x38u8) =~= msg.take(8));
    assert(crc_byte_steps(0x37DDu16 ^ 0x39u16) == 0x4B37u16) by (bit_vector);
    lemma_crc_update_unfold(0x37DDu16, 0x39u8);
    lemma_crc16_bytewise(msg.take(8), 0x39u8);
    assert(msg.take(8).push(0x39u8) =~= msg.take(9));
    assert(msg.take(9) =~= msg);
}

/// Standard Modbus CRC16 (poly 0xA001, init 0xFFFF).
pub fn crc16(data: &[u8]) -> (crc: u16)
    ensures
        crc == crc16_spec(data@),
{
    let mut crc: u16 = 0xFFFF;
    let mut i: usize = 0;
    assert(data@.subrange(0, 0) =~= Seq::<u8>::empty());
    while i < data.len()
        invariant
            i <= data@.len(),
            crc == crc16_spec(data@.subrange(0, i as int)),
        decreases data@.len() - i,
    {
        let byte = data[i];
        let ghost start: u16 = crc ^ (byte as u16);
        crc = crc ^ (byte as u16);
        let mut k: u32 = 0;
        while k < 8
            invariant
                k <= 8,
                crc == crc_shifts(start, k as nat),
            decreases 8 - k,
        {
            if crc & 1 != 0 {
                crc = (crc >> 1) ^ 0xA001;
            } else {
                crc = crc >> 1;
            }
            k = k + 1;
        }
        proof {
            let next = data@.subrange(0, i + 1);
            assert(next.drop_last() =~= data@.subrange(0, i as int));
            assert(next.last() == byte);
        }
        i = i + 1;
    }
    assert(data@.subrange(0, data@.len() as int) =~= data@);
    crc
}

/// A CRC bit step is linear over xor.
proof fn lemma_shift_xor(a: u16, b: u16)
    ensures
        crc_shift(a ^ b) == crc_shift(a) ^ crc_shift(b),
{
    assert((if (a ^ b) & 1 != 0 { ((a ^ b) >> 1) ^ 0xA001 } else { (a ^ b) >> 1 }) == (if a & 1
        != 0 {
        (a >> 1) ^ 0xA001
    } else {
        a >> 1
    }) ^ (if b & 1 != 0 {
        (b >> 1) ^ 0xA001
    } else {
        b >> 1
    })) by (bit_vector);
}

/// A CRC bit step maps only zero to zero.
proof fn lemma_shift_nonzero(a: u16)
    ensures
        a != 0 ==> crc_shift(a) != 0,
{
    assert(a != 0 ==> (if a & 1 != 0 { (a >> 1) ^ 0xA001 } else { a >> 1 }) != 0) by (bit_vector);
}

proof fn lemma_shifts_xor(a: u16, b: u16, n: nat)
    ensures
        crc_shifts(a ^ b, n) == crc_shifts(a, n) ^ crc_shifts(b, n),
        a != b ==> crc_shifts(a, n) != crc_shifts(b, n),
    decreases n,
{
    if n > 0 {
        lemma_shifts_xor(a, b, (n - 1) as nat);
        let x = crc_shifts(a, (n - 1) as nat);
        let y = crc_shifts(b, (n - 1) as nat);
        lemma_shift_xor(x, y);
        lemma_shift_nonzero(x ^ y);
        assert(x != y ==> x ^ y != 0) by (bit_vector);
        assert(crc_shift(x) ^ crc_shift(y) != 0 ==> crc_shift(x) != crc_shift(y)) by (bit_vector);
    } else {
        assert(a != b ==> a != b);
    }
}

/// Absorbing a byte loses nothing: equal registers afterwards mean equal
/// register-xor-byte inputs.
proof fn lemma_update_injective(c1: u16, b1: u8, c2: u16, b2: u8)
    ensures
        crc_update(c1, b1) == crc_update(c2, b2) ==> c1 ^ (b1 as u16) == c2 ^ (b2 as u16),
{
    lemma_shifts_xor(c1 ^ (b1 as u16), c2 ^ (b2 as u16), 8);
}

/// Error detection: two messages of the same length that differ in exactly
/// one byte (so in particular in exactly one bit) have different CRCs.
pub proof fn lemma_crc_detects_byte_error(a: Seq<u8>, b: Seq<u8>, k: int)
    requires
        a.len() == b.len(),
        0 <= k < a.len(),
        a[k] != b[k],
        forall|i: int| 0 <= i < a.len() && i != k ==> a[i] == b[i],
    ensures
        crc16_spec(a) != crc16_spec(b),
    decreases a.len(),
{
    let last = a.len() - 1;
    let c1 = crc16_spec(a.drop_last());
    let c2 = crc16_spec(b.drop_last());
    lemma_update_injective(c1, a.last(), c2, b.last());
    if k == last {
        assert(a.drop_last() =~= b.drop_last());
        let x = a.last();
        let y = b.last();
        assert(x != y ==> c1 ^ (x as u16) != c1 ^ (y as u16)) by (bit_vector);
    } else {
        lemma_crc_detects_byte_error(a.drop_last(), b.drop_last(), k);
        let z = a.last();
        assert(a.last() == b.last());
        assert(c1 != c2 ==> c1 ^ (z as u16) != c2 ^ (z as u16)) by (bit_vector);
    }
}

/// Every single-bit error is detected: flipping bit `bit` of byte `k` of a
/// message changes its CRC.
pub proof fn lemma_crc_detects_bit_error(a: Seq<u8>, k: int, bit: u8)
    requires
        0 <= k < a.len(),
        bit < 8,
    ensures
        crc16_spec(a) != crc16_spec(a.update(k, a[k] ^ (1u8 << bit))),
{
    let x = a[k];
    assert(bit < 8 ==> x ^ (1u8 << bit) != x) by (bit_vector);
    lemma_crc_detects_byte_error(a, a.update(k, a[k] ^ (1u8 << bit)), k);
}

// ---------------------------------------------------------------------
// Request frames
// ---------------------------------------------------------------------

/// The six header bytes of a read-holding-registers request: device id,
/// function 0x03, start register and word count, both big-endian.
pub open spec fn request_header(device_id: u8, start_reg: u16, words: u16) -> Seq<u8> {
    seq![
        device_id,
        READ_HOLDING,
        (start_reg as int / 256) as u8,
        (start_reg as int % 256) as u8,
        (words as int / 256) as u8,
        (words as int % 256) as u8,
    ]
}

/// Two CRC bytes in the order Modbus sends them: low byte first.
pub open spec fn crc_bytes(crc: u16) -> Seq<u8> {
    seq![(crc as int % 256) as u8, (crc as int / 256) as u8]
}

/// A complete request frame: header followed by its CRC, low byte first.
pub open spec fn request_frame(device_id: u8, start_reg: u16, words: u16) -> Seq<u8> {
    request_header(device_id, start_reg, words) + crc_bytes(
        crc16_spec(request_header(device_id, start_reg, words)),
    )
}

proof fn lemma_split_u16(x: u16)
    ensures
        (x >> 8) as u8 == (x as int / 256) as u8,
        x as u8 == (x as int % 256) as u8,
        (x as int / 256) < 256,
{
    assert((x >> 8) as u8 == x / 256 && x as u8 == x % 256) by (bit_vector);
}

/// Build a Modbus "read holding registers" (function 0x03) request frame.
pub fn read_request(device_id: u8, start_reg: u16, words: u16) -> (frame: [u8; 8])
    ensures
        frame@ == request_frame(device_id, start_reg, words),
{
    proof {
        lemma_split_u16(start_reg);
        lemma_split_u16(words);
    }
    let mut frame = [
        device_id,
        0x03,
        (start_reg >> 8) as u8,
        start_reg as u8,
        (words >> 8) as u8,
        words as u8,
        0,
        0,
    ];
    assert(frame@.subrange(0, 6) =~= request_header(device_id, start_reg, words));
    let crc = crc16(&frame[0..6]);
    proof {
        lemma_split_u16(crc);
    }
    frame[6] = crc as u8;  // CRC low byte first
    frame[7] = (crc >> 8) as u8;
    assert(frame@ =~= request_frame(device_id, start_reg, words));
    frame
}

// ---------------------------------------------------------------------
// Response reassembly
// ---------------------------------------------------------------------

/// The pending bytes after appending as much of `fragment` as fits into a
/// 256-byte buffer that already holds `pending`.
pub open spec fn accumulate(pending: Seq<u8>, fragment: Seq<u8>) -> Seq<u8> {
    let space: int = if pending.len() <= 256 {
        256 - pending.len()
    } else {
        0
    };
    let take: int = if fragment.len() < space {
        fragment.len() as int
    } else {
        space
    };
    pending + fragment.subrange(0, take)
}

/// Total length of the function-0x03 response frame whose header starts
/// `bytes`: id, function, byte count, data, two CRC bytes.
pub open spec fn frame_len(bytes: Seq<u8>) -> int {
    bytes[2] as int + 5
}

/// Whether `bytes` hold a whole function-0x03 response frame.
pub open spec fn frame_complete(bytes: Seq<u8>) -> bool {
    bytes.len() >= 3 && bytes[1] == READ_HOLDING && bytes.len() >= frame_len(bytes)
}

/// Whether the CRC carried by a complete frame, low byte first, matches the
/// CRC of the bytes before it.
pub open spec fn frame_crc_ok(bytes: Seq<u8>) -> bool {
    crc16_spec(bytes.subrange(0, frame_len(bytes) - 2)) as int == bytes[frame_len(bytes) - 2] as int
        + 256 * bytes[frame_len(bytes) - 1] as int
}

/// The register data of a complete frame.
pub open spec fn frame_data(bytes: Seq<u8>) -> Seq<u8> {
    bytes.subrange(3, 3 + bytes[2] as int)
}

/// The pending bytes after one `feed`.
pub open spec fn feed_pending(pending: Seq<u8>, fragment: Seq<u8>) -> Seq<u8> {
    let q = accumulate(pending, fragment);
    if q.len() < 3 {
        q
    } else if q[1] != READ_HOLDING {
        Seq::empty()
    } else if q.len() < frame_len(q) {
        q
    } else {
        Seq::empty()
    }
}

/// What one `feed` returns.
pub open spec fn feed_output(pending: Seq<u8>, fragment: Seq<u8>) -> Option<Seq<u8>> {
    let q = accumulate(pending, fragment);
    if frame_complete(q) && frame_crc_ok(q) {
        Some(frame_data(q))
    } else {
        None
    }
}

/// Accumulates notification fragments until a complete, CRC-valid Modbus
/// response frame is present. Responses longer than one BLE notification
/// arrive as multiple fragments.
pub struct ResponseBuffer {
    buf: [u8; 256],
    len: usize,
}

impl View for ResponseBuffer {
    type V = Seq<u8>;

    /// The bytes received so far and not yet consumed.
    closed spec fn view(&self) -> Seq<u8> {
        self.buf@.subrange(0, if self.len <= 256 { self.len as int } else { 256 })
    }
}

impl ResponseBuffer {
    #[verifier::type_invariant]
    spec fn within_capacity(&self) -> bool {
        self.len <= 256
    }

    /// A buffer never holds more than 256 pending bytes.
    pub proof fn lemma_capacity(&self)
        ensures
            self@.len() <= 256,
    {
    }

    pub fn new() -> (b: Self)
        ensures
            b@ == Seq::<u8>::empty(),
    {
        let b = Self { buf: [0;256], len: 0 };
        assert(b@ =~= Seq::<u8>::empty());
        b
    }

    pub fn reset(&mut self)
        ensures
            final(self)@ == Seq::<u8>::empty(),
    {
        self.len = 0;
        assert(self@ =~= Seq::<u8>::empty());
    }

    /// Feed one notification payload. Returns the register data words once a
    /// complete function-0x03 response has been assembled and CRC-checked.
    pub fn feed(&mut self, fragment: &[u8]) -> (out: Option<&[u8]>)
        ensures
            final(self)@ == feed_pending(old(self)@, fragment@),
            final(self)@.len() <= 256,
            match out {
                Some(data) => feed_output(old(self)@, fragment@) == Some(data@),
                None => feed_output(old(self)@, fragment@) is None,
            },
    {
        proof {
            use_type_invariant(&*self);
        }
        let ghost q = accumulate(old(self)@, fragment@);
        let space = self.buf.len() - self.len;
        let take = if fragment.len() < space {
            fragment.len()
        } else {
            space
        };
        let start = self.len;
        let mut k: usize = 0;
        while k < take
            invariant
                start == self.len,
                start <= 256,
                take <= 256 - start,
                take <= fragment@.len(),
                k <= take,
                self.buf@.len() == 256,
                self.buf@.subrange(0, start as int) == old(self)@,
                forall|j: int| 0 <= j < k ==> self.buf@[start + j] == fragment@[j],
            decreases take - k,
        {
            self.buf[start + k] = fragment[k];
            k = k + 1;
        }
        self.len = start + take;
        assert(self@ =~= q);
        if self.len < 3 {
            return None;
        }
        if self.buf[1] != 0x03 {
            // Error response (function | 0x80) or garbage: drop it.
            self.len = 0;
            assert(self@ =~= Seq::<u8>::empty());
            return None;
        }
        let byte_count = self.buf[2] as usize;
        let frame_len = 3 + byte_count + 2;
        if self.len < frame_len {
            return None;
        }
        let crc = crc16(&self.buf[0..frame_len - 2]);
        let sent = (self.buf[frame_len - 2] as u16) + (self.buf[frame_len - 1] as u16) * 256;
        self.len = 0;
        assert(self@ =~= Seq::<u8>::empty());
        assert(self.buf@.subrange(0, frame_len - 2) =~= q.subrange(0, frame_len - 2));
        if crc == sent {
            let data = &self.buf[3..3 + byte_count];
            assert(data@ =~= frame_data(q));
            Some(data)
        } else {
            None
        }
    }
}

impl Default for ResponseBuffer {
    fn default() -> (b: Self)
        ensures
            b@ == Seq::<u8>::empty(),
    {
        Self::new()
    }
}

// ---------------------------------------------------------------------
// Laws of the framing
// ---------------------------------------------------------------------

/// The function-0x03 response a device sends for `data`: id, function,
/// byte count, the data, then the CRC of all that, low byte first.
pub open spec fn response_frame(device_id: u8, data: Seq<u8>) -> Seq<u8> {
    let head = seq![device_id, READ_HOLDING, data.len() as u8] + data;
    head + crc_bytes(crc16_spec(head))
}

/// Feeds `fragments` one after another into a buffer that holds `pending`:
/// the pending bytes at the end, and what each feed returned.
pub open spec fn feed_all(pending: Seq<u8>, fragments: Seq<Seq<u8>>) -> (Seq<u8>, Seq<Option<Seq<u8>>>)
    decreases fragments.len(),
{
    if fragments.len() == 0 {
        (pending, Seq::empty())
    } else {
        let before = feed_all(pending, fragments.drop_last());
        (
            feed_pending(before.0, fragments.last()),
            before.1.push(feed_output(before.0, fragments.last())),
        )
    }
}

/// A request frame is eight bytes: the device id, function 0x03, the start
/// register and the word count (which `word` reads back as words 1 and 2),
/// and a CRC that matches the six bytes before it, low byte first.
pub proof fn lemma_request_round_trip(device_id: u8, start_reg: u16, words: u16)
    ensures
        ({
            let frame = request_frame(device_id, start_reg, words);
            &&& frame.len() == 8
            &&& frame[0] == device_id
            &&& frame[1] == READ_HOLDING
            &&& be_word(frame, 1) == start_reg
            &&& be_word(frame, 2) == words
            &&& frame[2] as int * 256 + frame[3] as int == start_reg as int
            &&& frame[4] as int * 256 + frame[5] as int == words as int
            &&& crc16_spec(frame.subrange(0, 6)) as int == frame[6] as int + 256 * frame[7] as int
        }),
{
    let frame = request_frame(device_id, start_reg, words);
    let head = request_header(device_id, start_reg, words);
    assert(frame.subrange(0, 6) =~= head);
    let crc = crc16_spec(head);
    assert(crc as int / 256 < 256);
}

/// One feed, into a buffer holding a proper prefix of a response frame, of
/// a fragment that continues the frame: the buffer keeps the longer prefix
/// while the frame is incomplete, and hands out the data and empties once
/// the frame is whole (bytes past the frame are dropped).
#[verifier::spinoff_prover]
#[verifier::rlimit(40)]
proof fn lemma_feed_step(device_id: u8, data: Seq<u8>, pending: Seq<u8>, fragment: Seq<u8>)
    requires
        data.len() <= 251,
        pending.len() < response_frame(device_id, data).len(),
        pending == response_frame(device_id, data).subrange(0, pending.len() as int),
        ({
            let frame = response_frame(device_id, data);
            let joined = pending + fragment;
            let shared = if joined.len() < frame.len() {
                joined.len() as int
            } else {
                frame.len() as int
            };
            joined.subrange(0, shared) == frame.subrange(0, shared)
        }),
    ensures
        ({
            let frame = response_frame(device_id, data);
            let joined = pending + fragment;
            if joined.len() < frame.len() {
                &&& feed_pending(pending, fragment) == joined
                &&& feed_output(pending, fragment) is None
            } else {
                &&& feed_pending(pending, fragment) == Seq::<u8>::empty()
                &&& feed_output(pending, fragment) == Some(data)
            }
        }),
{
    let frame = response_frame(device_id, data);
    let head = seq![device_id, READ_HOLDING, data.len() as u8] + data;
    let crc = crc16_spec(head);
    let n = data.len() as int;
    assert(frame.len() == n + 5);
    assert(frame[1] == READ_HOLDING);
    assert(frame[2] == n as u8);
    assert(n as u8 == n);
    let joined = pending + fragment;
    let q = accumulate(pending, fragment);
    if joined.len() < frame.len() {
        assert(q =~= joined);
        assert(q == frame.subrange(0, q.len() as int));
        if q.len() >= 3 {
            assert(q[1] == frame[1]);
            assert(q[2] == frame[2]);
        }
    } else {
        assert(q.len() >= frame.len());
        assert forall|j: int| 0 <= j < frame.len() implies q[j] == frame[j] by {
            assert(q[j] == joined[j]);
            assert(joined.subrange(0, frame.len() as int)[j] == frame.subrange(0, frame.len() as int)[j]);
        }
        assert(q[1] == READ_HOLDING);
        assert(q[2] == n as u8);
        assert(frame_len(q) == n + 5);
        assert(q.subrange(0, n + 3) =~= head);
        assert(q[n + 3] == (crc as int % 256) as u8);
        assert(q[n + 4] == (crc as int / 256) as u8);
        assert(crc as int / 256 < 256);
        assert(frame_data(q) =~= data);
    }
}

/// Feeding fragments whose concatenation stays a proper prefix of a
/// response frame returns nothing and keeps exactly that prefix.
proof fn lemma_feed_prefix(device_id: u8, data: Seq<u8>, fragments: Seq<Seq<u8>>)
    requires
        data.len() <= 251,
        fragments.flatten_alt().len() < response_frame(device_id, data).len(),
        fragments.flatten_alt() == response_frame(device_id, data).subrange(
            0,
            fragments.flatten_alt().len() as int,
        ),
    ensures
        feed_all(Seq::empty(), fragments).0 == fragments.flatten_alt(),
        feed_all(Seq::empty(), fragments).1.len() == fragments.len(),
        forall|k: int|
            0 <= k < fragments.len() ==> (#[trigger] feed_all(Seq::empty(), fragments).1[k]) is None,
    decreases fragments.len(),
{
    if fragments.len() > 0 {
        let init = fragments.drop_last();
        let frame = response_frame(device_id, data);
        let whole = fragments.flatten_alt();
        assert(whole == init.flatten_alt() + fragments.last());
        assert(init.flatten_alt() =~= whole.subrange(0, init.flatten_alt().len() as int));
        assert(init.flatten_alt() =~= frame.subrange(0, init.flatten_alt().len() as int));
        lemma_feed_prefix(device_id, data, init);
        assert((init.flatten_alt() + fragments.last()).subrange(0, whole.len() as int)
            =~= frame.subrange(0, whole.len() as int));
        lemma_feed_step(device_id, data, init.flatten_alt(), fragments.last());
        let before = feed_all(Seq::empty(), init);
        assert forall|k: int| 0 <= k < fragments.len() implies (#[trigger] feed_all(
            Seq::empty(),
            fragments,
        ).1[k]) is None by {
            if k < init.len() {
                assert(feed_all(Seq::empty(), fragments).1[k] == before.1[k]);
            }
        }
    }
}

/// Reassembly: a response frame for at most 251 data bytes, split into
/// notification fragments in any way and fed after a reset, makes every
/// feed but the last return nothing and the last return exactly the data,
/// leaving the buffer empty. The last fragment may carry bytes past the
/// frame's end; they are dropped.
pub proof fn lemma_fragments_reassemble(device_id: u8, data: Seq<u8>, fragments: Seq<Seq<u8>>)
    requires
        data.len() <= 251,
        fragments.len() > 0,
        fragments.drop_last().flatten().len() < response_frame(device_id, data).len(),
        response_frame(device_id, data).len() <= fragments.flatten().len(),
        fragments.flatten().subrange(0, response_frame(device_id, data).len() as int)
            == response_frame(device_id, data),
    ensures
        feed_all(Seq::empty(), fragments).0 == Seq::<u8>::empty(),
        feed_all(Seq::empty(), fragments).1.len() == fragments.len(),
        feed_all(Seq::empty(), fragments).1.last() == Some(data),
        forall|k: int|
            0 <= k < fragments.len() - 1 ==> (#[trigger] feed_all(Seq::empty(), fragments).1[k]) is None,
{
    let init = fragments.drop_last();
    let frame = response_frame(device_id, data);
    fragments.lemma_flatten_and_flatten_alt_are_equivalent();
    init.lemma_flatten_and_flatten_alt_are_equivalent();
    let whole = fragments.flatten_alt();
    let prefix = init.flatten_alt();
    assert(whole == prefix + fragments.last());
    assert(prefix =~= whole.subrange(0, prefix.len() as int));
    assert(prefix =~= frame.subrange(0, prefix.len() as int));
    lemma_feed_prefix(device_id, data, init);
    assert((prefix + fragments.last()).subrange(0, frame.len() as int) =~= frame.subrange(
        0,
        frame.len() as int,
    ));
    lemma_feed_step(device_id, data, prefix, fragments.last());
    let before = feed_all(Seq::empty(), init);
    assert forall|k: int| 0 <= k < fragments.len() - 1 implies (#[trigger] feed_all(
        Seq::empty(),
        fragments,
    ).1[k]) is None by {
        assert(feed_all(Seq::empty(), fragments).1[k] == before.1[k]);
    }
}

/// Reassembly with any split: when fragment `m` is the one at which the
/// bytes fed so far first reach the end of a response frame (at most 251
/// data bytes), that feed returns exactly the data, every other feed
/// returns nothing (empty fragments fed afterwards included), and the
/// buffer ends empty.
pub proof fn lemma_reply_completes_once(
    device_id: u8,
    data: Seq<u8>,
    fragments: Seq<Seq<u8>>,
    m: int,
)
    requires
        data.len() <= 251,
        0 <= m < fragments.len(),
        fragments.subrange(0, m).flatten().len() < response_frame(device_id, data).len(),
        response_frame(device_id, data).len() <= fragments.subrange(0, m + 1).flatten().len(),
        fragments.subrange(0, m + 1).flatten().subrange(
            0,
            response_frame(device_id, data).len() as int,
        ) == response_frame(device_id, data),
        forall|j: int| m < j < fragments.len() ==> (#[trigger] fragments[j]).len() == 0,
    ensures
        feed_all(Seq::empty(), fragments).0 == Seq::<u8>::empty(),
        feed_all(Seq::empty(), fragments).1.len() == fragments.len(),
        feed_all(Seq::empty(), fragments).1[m] == Some(data),
        forall|k: int|
            0 <= k < fragments.len() && k != m ==> (#[trigger] feed_all(
                Seq::empty(),
                fragments,
            ).1[k]) is None,
{
    lemma_trailing_empty_fragments(device_id, data, fragments, m, fragments.len() as int);
    assert(fragments.subrange(0, fragments.len() as int) =~= fragments);
}

proof fn lemma_trailing_empty_fragments(
    device_id: u8,
    data: Seq<u8>,
    fragments: Seq<Seq<u8>>,
    m: int,
    n: int,
)
    requires
        data.len() <= 251,
        0 <= m < n <= fragments.len(),
        fragments.subrange(0, m).flatten().len() < response_frame(device_id, data).len(),
        response_frame(device_id, data).len() <= fragments.subrange(0, m + 1).flatten().len(),
        fragments.subrange(0, m + 1).flatten().subrange(
            0,
            response_frame(device_id, data).len() as int,
        ) == response_frame(device_id, data),
        forall|j: int| m < j < fragments.len() ==> (#[trigger] fragments[j]).len() == 0,
    ensures
        feed_all(Seq::empty(), fragments.subrange(0, n)).0 == Seq::<u8>::empty(),
        feed_all(Seq::empty(), fragments.subrange(0, n)).1.len() == n,
        feed_all(Seq::empty(), fragments.subrange(0, n)).1[m] == Some(data),
        forall|k: int|
            0 <= k < n && k != m ==> (#[trigger] feed_all(
                Seq::empty(),
                fragments.subrange(0, n),
            ).1[k]) is None,
    decreases n,
{
    let upto = fragments.subrange(0, n);
    if n == m + 1 {
        assert(upto.drop_last() =~= fragments.subrange(0, m));
        lemma_fragments_reassemble(device_id, data, upto);
    } else {
        lemma_trailing_empty_fragments(device_id, data, fragments, m, n - 1);
        assert(upto.drop_last() =~= fragments.subrange(0, n - 1));
        let before = feed_all(Seq::empty(), fragments.subrange(0, n - 1));
        assert(upto.last() == fragments[n - 1]);
        assert(upto.last().len() == 0);
        assert(accumulate(before.0, upto.last()) =~= Seq::<u8>::empty());
        assert forall|k: int| 0 <= k < n && k != m implies (#[trigger] feed_all(
            Seq::empty(),
            upto,
        ).1[k]) is None by {
            if k < n - 1 {
                assert(feed_all(Seq::empty(), upto).1[k] == before.1[k]);
            }
        }
        assert(feed_all(Seq::empty(), upto).1[m] == before.1[m]);
    }
}

/// A whole function-0x03 frame whose CRC does not match is refused, and the
/// buffer is emptied; so is any response whose function byte is not 0x03.
pub proof fn lemma_bad_frames_dropped(pending: Seq<u8>, fragment: Seq<u8>)
    requires
        accumulate(pending, fragment).len() >= 3,
        accumulate(pending, fragment)[1] != READ_HOLDING || (frame_complete(
            accumulate(pending, fragment),
        ) && !frame_crc_ok(accumulate(pending, fragment))),
    ensures
        feed_output(pending, fragment) is None,
        feed_pending(pending, fragment) == Seq::<u8>::empty(),
{
}

} // verus!
