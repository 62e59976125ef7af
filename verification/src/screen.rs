//! Screen layouts: the status screen shown while connecting, the live data
//! screen, and the decimal formatting of readings.
use crate::font::glyph_spec;
use crate::renogy::{charging_state_label, charging_state_label_spec, ChargerData, StateInfo};
use crate::sh1106::{
    adds_pixels, cell_fits, lemma_adds_compose, lemma_adds_nothing, flush_matches, glyph_bit, glyph_fits, lit, on_screen, text_covers,
    text_fits, Sh1106, SpiWrite,
};
use vstd::prelude::*;

verus! {

// ---------------------------------------------------------------------
// Decimal formatting
// ---------------------------------------------------------------------

/// The character of decimal digit `d`.
pub open spec fn digit_char(d: int) -> char {
    if d == 0 {
        '0'
    } else if d == 1 {
        '1'
    } else if d == 2 {
        '2'
    } else if d == 3 {
        '3'
    } else if d == 4 {
        '4'
    } else if d == 5 {
        '5'
    } else if d == 6 {
        '6'
    } else if d == 7 {
        '7'
    } else if d == 8 {
        '8'
    } else {
        '9'
    }
}

/// `n` written in decimal, without leading zeros ("0" for zero).
pub open spec fn decimal(n: nat) -> Seq<char>
    decreases n,
{
    if n < 10 {
        seq![digit_char(n as int)]
    } else {
        decimal(n / 10) + seq![digit_char((n % 10) as int)]
    }
}

/// The value of a string of decimal digits.
pub open spec fn digits_value(s: Seq<char>) -> int
    decreases s.len(),
{
    if s.len() == 0 {
        0
    } else {
        digits_value(s.drop_last()) * 10 + (s.last() as int - '0' as int)
    }
}

proof fn lemma_digit_value(d: int)
    requires
        0 <= d < 10,
    ensures
        digit_char(d) as int - '0' as int == d,
{
}

/// Reading back what `decimal` writes gives the number: the formatting
/// loses nothing.
pub proof fn lemma_decimal_round_trip(n: nat)
    ensures
        digits_value(decimal(n)) == n,
    decreases n,
{
    lemma_digit_value((n % 10) as int);
    if n >= 10 {
        lemma_decimal_round_trip(n / 10);
        let s = decimal(n);
        assert(s.drop_last() =~= decimal(n / 10));
        assert(s.last() == digit_char((n % 10) as int));
        assert(digits_value(s) == digits_value(s.drop_last()) * 10 + (s.last() as int - '0' as int));
        assert(n == (n / 10) * 10 + n % 10);
    } else {
        let s = decimal(n);
        assert(s.drop_last() =~= Seq::<char>::empty());
        assert(s.last() == digit_char(n as int));
        assert(digits_value(s.drop_last()) == 0);
        assert(digits_value(s) == digits_value(s.drop_last()) * 10 + (s.last() as int - '0' as int));
    }
}

/// Whether every character is a decimal digit.
pub open spec fn all_digits(s: Seq<char>) -> bool {
    forall|i: int| 0 <= i < s.len() ==> '0' <= #[trigger] s[i] <= '9'
}

/// `decimal` writes only digits.
pub proof fn lemma_decimal_digits(n: nat)
    ensures
        all_digits(decimal(n)),
    decreases n,
{
    if n >= 10 {
        lemma_decimal_digits(n / 10);
        let s = decimal(n);
        assert forall|i: int| 0 <= i < s.len() implies '0' <= #[trigger] s[i] <= '9' by {
            if i < decimal(n / 10).len() {
                assert(s[i] == decimal(n / 10)[i]);
            }
        }
    }
}

/// A number with one digit before and one after a point, and a unit:
/// `text` is the digits of `whole`, '.', the digit `tenth`, then `unit`.
pub open spec fn reads_as(text: Seq<char>, whole: int, tenth: int, unit: char) -> bool {
    &&& text.len() >= 4
    &&& text[text.len() - 1] == unit
    &&& text[text.len() - 3] == '.'
    &&& all_digits(text.subrange(0, text.len() - 3))
    &&& digits_value(text.subrange(0, text.len() - 3)) == whole
    &&& '0' <= text[text.len() - 2] <= '9'
    &&& text[text.len() - 2] as int - '0' as int == tenth
}

proof fn lemma_point_text(a: nat, b: nat, unit: char)
    requires
        b < 10,
    ensures
        reads_as(decimal(a) + seq!['.'] + decimal(b) + seq![unit], a as int, b as int, unit),
{
    let t = decimal(a) + seq!['.'] + decimal(b) + seq![unit];
    lemma_decimal_len(a);
    lemma_decimal_len(b);
    lemma_decimal_digits(a);
    lemma_decimal_round_trip(a);
    lemma_digit_value(b as int);
    assert(t.subrange(0, t.len() - 3) =~= decimal(a));
    assert(t[t.len() - 2] == decimal(b)[0]);
}

/// The volts text reads back as the reading: the digits before the point
/// are the whole volts, the one after it the tenths, then 'V'.
pub proof fn lemma_volts_text_reads_back(x10: u16)
    ensures
        reads_as(volts_text(x10), x10 as int / 10, x10 as int % 10, 'V'),
{
    lemma_point_text((x10 / 10) as nat, (x10 % 10) as nat, 'V');
}

/// Decimal lengths by magnitude: a u16 has one to five digits, the sum of
/// two u16 at most six; below 10 just one.
pub proof fn lemma_decimal_len(n: nat)
    ensures
        decimal(n).len() >= 1,
        n < 10 ==> decimal(n).len() == 1,
        n < 100 ==> decimal(n).len() <= 2,
        n < 1000 ==> decimal(n).len() <= 3,
        n < 10000 ==> decimal(n).len() <= 4,
        n < 100000 ==> decimal(n).len() <= 5,
        n < 1000000 ==> decimal(n).len() <= 6,
    decreases n,
{
    if n >= 10 {
        lemma_decimal_len(n / 10);
    }
}

fn digit_str(d: u32) -> (s: &'static str)
    requires
        d < 10,
    ensures
        s@ == seq![digit_char(d as int)],
{
    if d == 0 {
        proof {
            reveal_strlit("0");
        }
        "0"
    } else if d == 1 {
        proof {
            reveal_strlit("1");
        }
        "1"
    } else if d == 2 {
        proof {
            reveal_strlit("2");
        }
        "2"
    } else if d == 3 {
        proof {
            reveal_strlit("3");
        }
        "3"
    } else if d == 4 {
        proof {
            reveal_strlit("4");
        }
        "4"
    } else if d == 5 {
        proof {
            reveal_strlit("5");
        }
        "5"
    } else if d == 6 {
        proof {
            reveal_strlit("6");
        }
        "6"
    } else if d == 7 {
        proof {
            reveal_strlit("7");
        }
        "7"
    } else if d == 8 {
        proof {
            reveal_strlit("8");
        }
        "8"
    } else {
        proof {
            reveal_strlit("9");
        }
        "9"
    }
}

fn push_decimal(out: &mut String, n: u32)
    ensures
        final(out)@ == old(out)@ + decimal(n as nat),
    decreases n,
{
    if n >= 10 {
        push_decimal(out, n / 10);
    }
    out.append(digit_str(n % 10));
    assert(final(out)@ =~= old(out)@ + decimal(n as nat)) by {
        if n >= 10 {
            assert(decimal(n as nat) == decimal((n / 10) as nat) + seq![digit_char((n % 10) as int)]);
        }
    }
}

/// `n` written in decimal.
pub fn fmt_decimal(n: u16) -> (s: String)
    ensures
        s@ == decimal(n as nat),
{
    let mut s = String::new();
    push_decimal(&mut s, n as u32);
    assert(s@ =~= decimal(n as nat));
    s
}

/// Volts from tenths of a volt, as "12.8V".
pub open spec fn volts_text(x10: u16) -> Seq<char> {
    decimal((x10 / 10) as nat) + seq!['.'] + decimal((x10 % 10) as nat) + seq!['V']
}

/// Formats tenths of a volt as volts with one decimal, e.g. 128 as "12.8V".
pub fn fmt_volts(x10: u16) -> (s: String)
    ensures
        s@ == volts_text(x10),
{
    proof {
        reveal_strlit(".");
        reveal_strlit("V");
    }
    let mut s = String::new();
    push_decimal(&mut s, (x10 / 10) as u32);
    s.append(".");
    push_decimal(&mut s, (x10 % 10) as u32);
    s.append("V");
    assert(s@ =~= volts_text(x10));
    s
}

// ---------------------------------------------------------------------
// Layouts
// ---------------------------------------------------------------------

/// The heading of the status screen.
pub open spec fn status_title() -> Seq<char> {
    seq!['g', 'o', 'b', 'b', 'l', 'e', ' ', 'g', 'o', 'b', 'b', 'l', 'e']
}

/// The pixels of the status screen: the heading at (12, 0) and the two
/// lines at (0, 28) and (0, 40), all at scale 1.
pub open spec fn status_covers(line1: Seq<char>, line2: Seq<char>, px: int, py: int) -> bool {
    text_covers(status_title(), 12, 0, 1, px, py) || text_covers(line1, 0, 28, 1, px, py)
        || text_covers(line2, 0, 40, 1, px, py)
}

/// The state-of-charge text, as "87%".
pub open spec fn soc_text(d: ChargerData) -> Seq<char> {
    decimal(d.soc as nat) + seq!['%']
}

/// The bottom line of the data screen: charge current in amps with one
/// decimal (truncated) and the input power (both input slots summed),
/// labelled IN, as "CHG 12.3A IN 150W".
pub open spec fn bottom_text(d: ChargerData) -> Seq<char> {
    seq!['C', 'H', 'G', ' '] + decimal((d.charge_amps_x100 / 100) as nat) + seq!['.'] + decimal(
        ((d.charge_amps_x100 % 100) / 10) as nat,
    ) + seq!['A', ' ', 'I', 'N', ' '] + decimal((d.alt_watts + d.solar_watts) as nat) + seq!['W']
}

/// The texts of the data screen read back as the readings: the state of
/// charge is its digits then '%'; the bottom line is "CHG ", the charge
/// current as amps text, " IN ", the digits of the summed input power, "W".
pub proof fn lemma_data_texts_read_back(d: ChargerData)
    ensures
        soc_text(d).last() == '%',
        all_digits(soc_text(d).drop_last()),
        digits_value(soc_text(d).drop_last()) == d.soc as int,
        bottom_text(d) == seq!['C', 'H', 'G', ' '] + amps_text(d.charge_amps_x100) + seq![
            ' ',
            'I',
            'N',
            ' ',
        ] + decimal((d.alt_watts + d.solar_watts) as nat) + seq!['W'],
        digits_value(decimal((d.alt_watts + d.solar_watts) as nat)) == d.alt_watts as int
            + d.solar_watts as int,
{
    assert(soc_text(d).drop_last() =~= decimal(d.soc as nat));
    lemma_decimal_digits(d.soc as nat);
    lemma_decimal_round_trip(d.soc as nat);
    lemma_decimal_round_trip((d.alt_watts + d.solar_watts) as nat);
    assert(bottom_text(d) =~= seq!['C', 'H', 'G', ' '] + amps_text(d.charge_amps_x100) + seq![
        ' ',
        'I',
        'N',
        ' ',
    ] + decimal((d.alt_watts + d.solar_watts) as nat) + seq!['W']);
}

/// The pixels of the data screen: "HOUSE" with the state of charge
/// right-aligned on the top line, the house voltage at double size, "START"
/// with the charging-state label right-aligned, the starter voltage at
/// double size, and the bottom line.
pub open spec fn data_covers(d: ChargerData, charging_state: u8, px: int, py: int) -> bool {
    ||| text_covers(seq!['H', 'O', 'U', 'S', 'E'], 0, 0, 1, px, py)
    ||| text_covers(soc_text(d), 128 - 8 * soc_text(d).len(), 0, 1, px, py)
    ||| text_covers(volts_text(d.house_volts_x10), 0, 9, 2, px, py)
    ||| text_covers(seq!['S', 'T', 'A', 'R', 'T'], 0, 28, 1, px, py)
    ||| text_covers(
        charging_state_label_spec(charging_state),
        128 - 8 * charging_state_label_spec(charging_state).len(),
        28,
        1,
        px,
        py,
    )
    ||| text_covers(volts_text(d.start_volts_x10), 0, 37, 2, px, py)
    ||| text_covers(bottom_text(d), 0, 56, 1, px, py)
}

proof fn lemma_small_offsets(i: int, row: int, col: int, x: int, y: int, s: int)
    by (nonlinear_arith)
    requires
        0 <= i < 1000,
        0 <= row < 8,
        0 <= col < 8,
        -1000 <= x <= 1000,
        -1000 <= y <= 1000,
        1 <= s <= 4,
    ensures
        0 <= i * 8 * s <= 32000,
        cell_fits(x + i * 8 * s, y, row, col, s),
{
}

/// A short text at a nearby position fits the coordinate arithmetic.
proof fn lemma_small_text_fits(text: Seq<char>, x: int, y: int, s: int)
    requires
        text.len() <= 1000,
        -1000 <= x <= 1000,
        -1000 <= y <= 1000,
        1 <= s <= 4,
    ensures
        text_fits(text, x, y, s),
{
    if text.len() > 0 {
        lemma_small_offsets(text.len() - 1, 0, 0, x, y, s);
    }
    assert forall|i: int| 0 <= i < text.len() implies #[trigger] glyph_fits(
        glyph_spec(text[i]),
        x + i * 8 * s,
        y,
        s,
    ) by {
        assert forall|row: int, col: int|
            0 <= row < 8 && 0 <= col < 8 && #[trigger] glyph_bit(
                glyph_spec(text[i]),
                row,
                col,
            ) implies cell_fits(x + i * 8 * s, y, row, col, s) by {
            lemma_small_offsets(i, row, col, x, y, s);
        }
    }
}

/// After clearing, drawing adds pixels onto a blank buffer: the buffer
/// shows exactly what was added.
proof fn lemma_blank_then_adds(
    before: Seq<u8>,
    after: Seq<u8>,
    shown: spec_fn(int, int) -> bool,
    added: spec_fn(int, int) -> bool,
    now: spec_fn(int, int) -> bool,
)
    requires
        before.len() == 1024,
        forall|px: int, py: int| on_screen(px, py) ==> #[trigger] lit(before, px, py) == shown(px, py),
        adds_pixels(before, after, added),
        forall|px: int, py: int|
            on_screen(px, py) ==> #[trigger] now(px, py) == (shown(px, py) || added(px, py)),
    ensures
        after.len() == 1024,
        forall|px: int, py: int| on_screen(px, py) ==> #[trigger] lit(after, px, py) == now(px, py),
{
    assert forall|px: int, py: int| on_screen(px, py) implies #[trigger] lit(after, px, py) == now(
        px,
        py,
    ) by {
        assert(lit(before, px, py) == shown(px, py));
        assert(now(px, py) == (shown(px, py) || added(px, py)));
    }
}

/// Draws the status screen (heading plus two lines) into `display` and
/// returns the writes that show it.
pub fn show_status(display: &mut Sh1106, line1: &str, line2: &str) -> (writes: Vec<SpiWrite>)
    requires
        text_fits(line1@, 0, 28, 1),
        text_fits(line2@, 0, 40, 1),
    ensures
        final(display)@.len() == 1024,
        forall|px: int, py: int|
            on_screen(px, py) ==> #[trigger] lit(final(display)@, px, py) == status_covers(
                line1@,
                line2@,
                px,
                py,
            ),
        flush_matches(final(display)@, writes@),
{
    proof {
        reveal_strlit("gobble gobble");
        lemma_small_text_fits(status_title(), 12, 0, 1);
    }
    let title = "gobble gobble";
    assert(title@ =~= status_title());
    display.clear();
    proof {
        display.lemma_len();
    }
    let ghost b0 = display@;
    display.draw_text(title, 12, 0, 1);
    let ghost b1 = display@;
    proof {
        lemma_blank_then_adds(
            b0,
            b1,
            |px: int, py: int| false,
            |px: int, py: int| text_covers(title@, 12, 0, 1, px, py),
            |px: int, py: int| text_covers(status_title(), 12, 0, 1, px, py),
        );
    }
    display.draw_text(line1, 0, 28, 1);
    let ghost b2 = display@;
    proof {
        lemma_blank_then_adds(
            b1,
            b2,
            |px: int, py: int| text_covers(status_title(), 12, 0, 1, px, py),
            |px: int, py: int| text_covers(line1@, 0, 28, 1, px, py),
            |px: int, py: int|
                text_covers(status_title(), 12, 0, 1, px, py) || text_covers(line1@, 0, 28, 1, px, py),
        );
    }
    display.draw_text(line2, 0, 40, 1);
    proof {
        lemma_blank_then_adds(
            b2,
            display@,
            |px: int, py: int|
                text_covers(status_title(), 12, 0, 1, px, py) || text_covers(line1@, 0, 28, 1, px, py),
            |px: int, py: int| text_covers(line2@, 0, 40, 1, px, py),
            |px: int, py: int| status_covers(line1@, line2@, px, py),
        );
    }
    display.flush()
}

/// The text of the bottom line of the data screen.
fn fmt_bottom(d: &ChargerData) -> (s: String)
    ensures
        s@ == bottom_text(*d),
{
    proof {
        reveal_strlit("CHG ");
        reveal_strlit(".");
        reveal_strlit("A IN ");
        reveal_strlit("W");
    }
    let amps = d.charge_amps_x100;
    let mut s = String::new();
    s.append("CHG ");
    push_decimal(&mut s, (amps / 100) as u32);
    s.append(".");
    push_decimal(&mut s, ((amps % 100) / 10) as u32);
    s.append("A IN ");
    push_decimal(&mut s, d.alt_watts as u32 + d.solar_watts as u32);
    s.append("W");
    assert(s@ =~= bottom_text(*d));
    s
}

/// Draws the live data screen for `d` into `display` and returns the
/// writes that show it.
pub fn show_data(display: &mut Sh1106, d: &ChargerData, state: &StateInfo) -> (writes: Vec<
    SpiWrite,
>)
    ensures
        final(display)@.len() == 1024,
        forall|px: int, py: int|
            on_screen(px, py) ==> #[trigger] lit(final(display)@, px, py) == data_covers(
                *d,
                state.charging_state,
                px,
                py,
            ),
        flush_matches(final(display)@, writes@),
{
    let house_label = "HOUSE";
    let start_label = "START";
    proof {
        reveal_strlit("HOUSE");
        reveal_strlit("START");
        reveal_strlit("%");
        lemma_decimal_len(d.soc as nat);
        lemma_decimal_len((d.house_volts_x10 / 10) as nat);
        lemma_decimal_len((d.house_volts_x10 % 10) as nat);
        lemma_decimal_len((d.start_volts_x10 / 10) as nat);
        lemma_decimal_len((d.start_volts_x10 % 10) as nat);
        lemma_decimal_len((d.charge_amps_x100 / 100) as nat);
        lemma_decimal_len(((d.charge_amps_x100 % 100) / 10) as nat);
        lemma_decimal_len((d.alt_watts + d.solar_watts) as nat);
    }
    assert(house_label@ =~= seq!['H', 'O', 'U', 'S', 'E']);
    assert(start_label@ =~= seq!['S', 'T', 'A', 'R', 'T']);
    let ghost t0 = seq!['H', 'O', 'U', 'S', 'E'];
    let ghost t1 = soc_text(*d);
    let ghost x1: int = 128 - 8 * soc_text(*d).len();
    let ghost t2 = volts_text(d.house_volts_x10);
    let ghost t3 = seq!['S', 'T', 'A', 'R', 'T'];
    let ghost t4 = volts_text(d.start_volts_x10);
    let ghost t5 = bottom_text(*d);

    display.clear();
    proof {
        display.lemma_len();
        lemma_small_text_fits(house_label@, 0, 0, 1);
    }
    let ghost b0 = display@;
    display.draw_text(house_label, 0, 0, 1);
    let ghost b1 = display@;
    proof {
        lemma_blank_then_adds(
            b0,
            b1,
            |px: int, py: int| false,
            |px: int, py: int| text_covers(house_label@, 0, 0, 1, px, py),
            |px: int, py: int| text_covers(t0, 0, 0, 1, px, py),
        );
    }

    let mut soc = fmt_decimal(d.soc);
    soc.append("%");
    let soc_len = soc.as_str().unicode_len();
    assert(soc@ =~= t1);
    proof {
        lemma_small_text_fits(soc@, 128 - 8 * soc_len as int, 0, 1);
    }
    display.draw_text(soc.as_str(), 128 - 8 * soc_len as i32, 0, 1);
    let ghost b2 = display@;
    proof {
        lemma_blank_then_adds(
            b1,
            b2,
            |px: int, py: int| text_covers(t0, 0, 0, 1, px, py),
            |px: int, py: int| text_covers(soc@, x1, 0, 1, px, py),
            |px: int, py: int|
                text_covers(t0, 0, 0, 1, px, py) || text_covers(t1, x1, 0, 1, px, py),
        );
    }

    let house = fmt_volts(d.house_volts_x10);
    proof {
        lemma_small_text_fits(house@, 0, 9, 2);
    }
    display.draw_text(house.as_str(), 0, 9, 2);
    let ghost b3 = display@;
    proof {
        lemma_blank_then_adds(
            b2,
            b3,
            |px: int, py: int|
                text_covers(t0, 0, 0, 1, px, py) || text_covers(t1, x1, 0, 1, px, py),
            |px: int, py: int| text_covers(house@, 0, 9, 2, px, py),
            |px: int, py: int|
                text_covers(t0, 0, 0, 1, px, py) || text_covers(t1, x1, 0, 1, px, py)
                    || text_covers(t2, 0, 9, 2, px, py),
        );
    }

    proof {
        lemma_small_text_fits(start_label@, 0, 28, 1);
    }
    display.draw_text(start_label, 0, 28, 1);
    let ghost b4 = display@;
    proof {
        lemma_blank_then_adds(
            b3,
            b4,
            |px: int, py: int|
                text_covers(t0, 0, 0, 1, px, py) || text_covers(t1, x1, 0, 1, px, py)
                    || text_covers(t2, 0, 9, 2, px, py),
            |px: int, py: int| text_covers(start_label@, 0, 28, 1, px, py),
            |px: int, py: int|
                text_covers(t0, 0, 0, 1, px, py) || text_covers(t1, x1, 0, 1, px, py)
                    || text_covers(t2, 0, 9, 2, px, py) || text_covers(t3, 0, 28, 1, px, py),
        );
    }

    let start = fmt_volts(d.start_volts_x10);
    proof {
        lemma_small_text_fits(start@, 0, 37, 2);
    }
    display.draw_text(start.as_str(), 0, 37, 2);
    let ghost b5 = display@;
    proof {
        lemma_blank_then_adds(
            b4,
            b5,
            |px: int, py: int|
                text_covers(t0, 0, 0, 1, px, py) || text_covers(t1, x1, 0, 1, px, py)
                    || text_covers(t2, 0, 9, 2, px, py) || text_covers(t3, 0, 28, 1, px, py),
            |px: int, py: int| text_covers(start@, 0, 37, 2, px, py),
            |px: int, py: int|
                text_covers(t0, 0, 0, 1, px, py) || text_covers(t1, x1, 0, 1, px, py)
                    || text_covers(t2, 0, 9, 2, px, py) || text_covers(t3, 0, 28, 1, px, py)
                    || text_covers(t4, 0, 37, 2, px, py),
        );
    }

    let bottom = fmt_bottom(d);
    proof {
        lemma_small_text_fits(bottom@, 0, 56, 1);
    }
    display.draw_text(bottom.as_str(), 0, 56, 1);
    proof {
        lemma_blank_then_adds(
            b5,
            display@,
            |px: int, py: int|
                text_covers(t0, 0, 0, 1, px, py) || text_covers(t1, x1, 0, 1, px, py)
                    || text_covers(t2, 0, 9, 2, px, py) || text_covers(t3, 0, 28, 1, px, py)
                    || text_covers(t4, 0, 37, 2, px, py),
            |px: int, py: int| text_covers(bottom@, 0, 56, 1, px, py),
            |px: int, py: int|
                text_covers(t0, 0, 0, 1, px, py) || text_covers(t1, x1, 0, 1, px, py)
                    || text_covers(t2, 0, 9, 2, px, py) || text_covers(t3, 0, 28, 1, px, py)
                    || text_covers(t4, 0, 37, 2, px, py) || text_covers(t5, 0, 56, 1, px, py),
        );
    }
    let ghost b6 = display@;
    let label = charging_state_label(state.charging_state);
    let label_len = label.unicode_len();
    let ghost t6 = charging_state_label_spec(state.charging_state);
    let ghost x6: int = 128 - 8 * t6.len();
    proof {
        lemma_small_text_fits(label@, 128 - 8 * label_len as int, 28, 1);
    }
    display.draw_text(label, 128 - 8 * label_len as i32, 28, 1);
    proof {
        lemma_blank_then_adds(
            b6,
            display@,
            |px: int, py: int|
                text_covers(t0, 0, 0, 1, px, py) || text_covers(t1, x1, 0, 1, px, py)
                    || text_covers(t2, 0, 9, 2, px, py) || text_covers(t3, 0, 28, 1, px, py)
                    || text_covers(t4, 0, 37, 2, px, py) || text_covers(t5, 0, 56, 1, px, py),
            |px: int, py: int| text_covers(label@, x6, 28, 1, px, py),
            |px: int, py: int| data_covers(*d, state.charging_state, px, py),
        );
    }
    display.flush()
}

// ---------------------------------------------------------------------
// Extras screen
// ---------------------------------------------------------------------

/// Amps from hundredths, with one decimal (truncated), as "8.0A".
pub open spec fn amps_text(x100: u16) -> Seq<char> {
    decimal((x100 / 100) as nat) + seq!['.'] + decimal(((x100 % 100) / 10) as nat) + seq!['A']
}

/// The amps text reads back as the current: the digits before the point
/// are the whole amps, the one after it the tenths (truncated), then 'A'.
pub proof fn lemma_amps_text_reads_back(x100: u16)
    ensures
        reads_as(amps_text(x100), x100 as int / 100, (x100 as int % 100) / 10, 'A'),
{
    lemma_point_text((x100 / 100) as nat, ((x100 % 100) / 10) as nat, 'A');
}

/// Degrees C, with a minus sign below zero, as "-5C".
pub open spec fn temp_text(t: i8) -> Seq<char> {
    if t < 0 {
        seq!['-'] + decimal((-t) as nat) + seq!['C']
    } else {
        decimal(t as nat) + seq!['C']
    }
}

/// The upper-case character of hex digit `d`.
pub open spec fn hex_char(d: int) -> char {
    if d < 10 {
        digit_char(d)
    } else if d == 10 {
        'A'
    } else if d == 11 {
        'B'
    } else if d == 12 {
        'C'
    } else if d == 13 {
        'D'
    } else if d == 14 {
        'E'
    } else {
        'F'
    }
}

/// A 16-bit word as four hex digits, most significant first.
pub open spec fn hex4_text(w: u16) -> Seq<char> {
    seq![
        hex_char(w as int / 4096),
        hex_char((w as int / 256) % 16),
        hex_char((w as int / 16) % 16),
        hex_char(w as int % 16),
    ]
}

/// The temperature text reads back as the temperature: a minus sign
/// exactly below zero, then the digits of its magnitude, then 'C'.
pub proof fn lemma_temp_text_reads_back(t: i8)
    ensures
        ({
            let text = temp_text(t);
            let sign: int = if t < 0 { 1 } else { 0 };
            &&& text.len() >= sign + 2
            &&& (text[0] == '-') == (t < 0)
            &&& text[text.len() - 1] == 'C'
            &&& all_digits(text.subrange(sign, text.len() - 1))
            &&& digits_value(text.subrange(sign, text.len() - 1)) == if t < 0 {
                -(t as int)
            } else {
                t as int
            }
        }),
{
    let m: nat = if t < 0 { (-t) as nat } else { t as nat };
    lemma_decimal_len(m);
    lemma_decimal_digits(m);
    lemma_decimal_round_trip(m);
    let text = temp_text(t);
    if t < 0 {
        assert(text.subrange(1, text.len() - 1) =~= decimal(m));
    } else {
        assert(text.subrange(0, text.len() - 1) =~= decimal(m));
        assert(text[0] == decimal(m)[0]);
    }
}

/// The value of a hex digit character.
pub open spec fn hex_value(c: char) -> int {
    if '0' <= c <= '9' {
        c as int - '0' as int
    } else {
        c as int - 'A' as int + 10
    }
}

/// The hex text of a word reads back as the word: four upper-case hex
/// digits, most significant first.
#[verifier::spinoff_prover]
pub proof fn lemma_hex4_reads_back(w: u16)
    ensures
        hex4_text(w).len() == 4,
        forall|i: int|
            0 <= i < 4 ==> ('0' <= #[trigger] hex4_text(w)[i] <= '9' || 'A' <= hex4_text(w)[i]
                <= 'F'),
        hex_value(hex4_text(w)[0]) * 4096 + hex_value(hex4_text(w)[1]) * 256 + hex_value(
            hex4_text(w)[2],
        ) * 16 + hex_value(hex4_text(w)[3]) == w,
{
    let a = w as int / 4096;
    let b = (w as int / 256) % 16;
    let c = (w as int / 16) % 16;
    let e = w as int % 16;
    lemma_hex_split(w as int);
    lemma_hex_char(a);
    lemma_hex_char(b);
    lemma_hex_char(c);
    lemma_hex_char(e);
    let t = hex4_text(w);
    assert(t[0] == hex_char(a));
    assert(t[1] == hex_char(b));
    assert(t[2] == hex_char(c));
    assert(t[3] == hex_char(e));
}

proof fn lemma_hex_split(w: int)
    requires
        0 <= w < 65536,
    ensures
        0 <= w / 4096 < 16,
        0 <= (w / 256) % 16 < 16,
        0 <= (w / 16) % 16 < 16,
        0 <= w % 16 < 16,
        w == (w / 4096) * 4096 + ((w / 256) % 16) * 256 + ((w / 16) % 16) * 16 + w % 16,
{
    assert(w == (w / 4096) * 4096 + ((w / 256) % 16) * 256 + ((w / 16) % 16) * 16 + w % 16)
        by (nonlinear_arith)
        requires
            0 <= w < 65536,
    ;
}

proof fn lemma_hex_char(d: int)
    requires
        0 <= d < 16,
    ensures
        hex_value(hex_char(d)) == d,
        '0' <= hex_char(d) <= '9' || 'A' <= hex_char(d) <= 'F',
{
}

/// The lines of the extras screen, top to bottom: alternator (starter
/// side) volts and amps, solar volts and amps, input watts (both slots),
/// controller and battery temperatures, today's lowest and highest house
/// voltage, amp-hours charged today, and the two fault words in hex.
pub open spec fn extras_lines(d: ChargerData, st: StateInfo) -> Seq<Seq<char>> {
    seq![
        seq!['A', 'L', 'T', ' '] + volts_text(d.start_volts_x10) + seq![' '] + amps_text(
            d.alt_amps_x100,
        ),
        seq!['S', 'O', 'L', ' '] + volts_text(d.solar_volts_x10) + seq![' '] + amps_text(
            d.solar_amps_x100,
        ),
        seq!['I', 'N', ' '] + decimal((d.alt_watts + d.solar_watts) as nat) + seq!['W'],
        seq!['C', 'T', 'L', ' '] + temp_text(d.controller_temp) + seq![' ', 'B', 'A', 'T', ' ']
            + temp_text(d.battery_temp),
        seq!['D', 'A', 'Y', ' '] + volts_text(d.min_volts_x10) + seq!['-'] + volts_text(
            d.max_volts_x10,
        ),
        seq!['A', 'H', ' '] + decimal(d.ah_today as nat),
        seq!['F', 'L', 'T', ' '] + hex4_text(st.faults@[0]) + seq![' '] + hex4_text(st.faults@[1]),
    ]
}

/// Whether one of the first `count` of `lines`, line `k` drawn at (0, 9 * k)
/// at scale 1, covers (px, py).
pub open spec fn lines_cover_upto(lines: Seq<Seq<char>>, count: int, px: int, py: int) -> bool {
    exists|k: int| 0 <= k < count && k < lines.len() && #[trigger] text_covers(lines[k], 0, 9 * k, 1, px, py)
}

/// Whether one of `lines`, line `k` drawn at (0, 9 * k), covers (px, py).
pub open spec fn lines_cover(lines: Seq<Seq<char>>, px: int, py: int) -> bool {
    lines_cover_upto(lines, lines.len() as int, px, py)
}

proof fn lemma_lines_next(lines: Seq<Seq<char>>, k: int, px: int, py: int)
    requires
        0 <= k < lines.len(),
    ensures
        lines_cover_upto(lines, k + 1, px, py) == (lines_cover_upto(lines, k, px, py) || text_covers(
            lines[k],
            0,
            9 * k,
            1,
            px,
            py,
        )),
{
    if lines_cover_upto(lines, k + 1, px, py) {
        let j = choose|j: int|
            0 <= j < k + 1 && j < lines.len() && #[trigger] text_covers(lines[j], 0, 9 * j, 1, px, py);
        if j < k {
            assert(text_covers(lines[j], 0, 9 * j, 1, px, py));
        }
    }
    if text_covers(lines[k], 0, 9 * k, 1, px, py) {
        assert(text_covers(lines[k], 0, 9 * k, 1, px, py));
    }
}

/// Draws the text lines, line `k` at (0, 9 * k), scale 1.
fn draw_lines(display: &mut Sh1106, lines: &Vec<String>)
    requires
        lines@.len() <= 7,
        forall|k: int| 0 <= k < lines@.len() ==> (#[trigger] lines@[k])@.len() <= 1000,
    ensures
        adds_pixels(
            old(display)@,
            final(display)@,
            |px: int, py: int|
                lines_cover(Seq::new(lines@.len(), |k: int| lines@[k]@), px, py),
        ),
{
    let ghost start = display@;
    let ghost texts = Seq::new(lines@.len(), |k: int| lines@[k]@);
    proof {
        lemma_adds_nothing(start, |px: int, py: int| lines_cover_upto(texts, 0, px, py));
    }
    let mut k: usize = 0;
    while k < lines.len()
        invariant
            k <= lines@.len(),
            lines@.len() <= 7,
            texts == Seq::new(lines@.len(), |k: int| lines@[k]@),
            forall|j: int| 0 <= j < lines@.len() ==> (#[trigger] lines@[j])@.len() <= 1000,
            adds_pixels(start, display@, |px: int, py: int| lines_cover_upto(texts, k as int, px, py)),
        decreases lines@.len() - k,
    {
        let line = lines[k].as_str();
        proof {
            lemma_small_text_fits(line@, 0, 9 * k as int, 1);
        }
        let ghost before = display@;
        let ghost kk: int = k as int;
        display.draw_text(line, 0, 9 * k as i32, 1);
        proof {
            assert(texts[kk] == line@);
            assert forall|px: int, py: int| on_screen(px, py) implies #[trigger] lines_cover_upto(
                texts,
                kk + 1,
                px,
                py,
            ) == (lines_cover_upto(texts, kk, px, py) || text_covers(line@, 0, 9 * kk, 1, px, py)) by {
                lemma_lines_next(texts, kk, px, py);
            }
            lemma_adds_compose(
                start,
                before,
                display@,
                |px: int, py: int| lines_cover_upto(texts, kk, px, py),
                |px: int, py: int| text_covers(line@, 0, 9 * kk, 1, px, py),
                |px: int, py: int| lines_cover_upto(texts, kk + 1, px, py),
            );
        }
        k = k + 1;
    }
    assert(texts =~= Seq::new(lines@.len(), |k: int| lines@[k]@));
}

fn hex_str(d: u16) -> (s: &'static str)
    requires
        d < 16,
    ensures
        s@ == seq![hex_char(d as int)],
{
    if d < 10 {
        digit_str(d as u32)
    } else if d == 10 {
        proof {
            reveal_strlit("A");
        }
        "A"
    } else if d == 11 {
        proof {
            reveal_strlit("B");
        }
        "B"
    } else if d == 12 {
        proof {
            reveal_strlit("C");
        }
        "C"
    } else if d == 13 {
        proof {
            reveal_strlit("D");
        }
        "D"
    } else if d == 14 {
        proof {
            reveal_strlit("E");
        }
        "E"
    } else {
        proof {
            reveal_strlit("F");
        }
        "F"
    }
}

fn push_hex4(out: &mut String, w: u16)
    ensures
        final(out)@ == old(out)@ + hex4_text(w),
{
    out.append(hex_str(w / 4096));
    out.append(hex_str((w / 256) % 16));
    out.append(hex_str((w / 16) % 16));
    out.append(hex_str(w % 16));
    assert(final(out)@ =~= old(out)@ + hex4_text(w));
}

fn push_volts(out: &mut String, x10: u16)
    ensures
        final(out)@ == old(out)@ + volts_text(x10),
{
    proof {
        reveal_strlit(".");
        reveal_strlit("V");
    }
    push_decimal(out, (x10 / 10) as u32);
    out.append(".");
    push_decimal(out, (x10 % 10) as u32);
    out.append("V");
    assert(final(out)@ =~= old(out)@ + volts_text(x10));
}

fn push_amps(out: &mut String, x100: u16)
    ensures
        final(out)@ == old(out)@ + amps_text(x100),
{
    proof {
        reveal_strlit(".");
        reveal_strlit("A");
    }
    push_decimal(out, (x100 / 100) as u32);
    out.append(".");
    push_decimal(out, ((x100 % 100) / 10) as u32);
    out.append("A");
    assert(final(out)@ =~= old(out)@ + amps_text(x100));
}

fn push_temp(out: &mut String, t: i8)
    ensures
        final(out)@ == old(out)@ + temp_text(t),
{
    proof {
        reveal_strlit("-");
        reveal_strlit("C");
    }
    if t < 0 {
        out.append("-");
        push_decimal(out, (-(t as i32)) as u32);
    } else {
        push_decimal(out, t as u32);
    }
    out.append("C");
    assert(final(out)@ =~= old(out)@ + temp_text(t));
}

/// The text lines of the extras screen.
fn fmt_extras_lines(d: &ChargerData, st: &StateInfo) -> (lines: Vec<String>)
    ensures
        lines@.len() == 7,
        Seq::new(lines@.len(), |k: int| lines@[k]@) == extras_lines(*d, *st),
{
    proof {
        reveal_strlit("ALT ");
        reveal_strlit("SOL ");
        reveal_strlit("IN ");
        reveal_strlit("W");
        reveal_strlit(" ");
        reveal_strlit("CTL ");
        reveal_strlit(" BAT ");
        reveal_strlit("DAY ");
        reveal_strlit("-");
        reveal_strlit("AH ");
        reveal_strlit("FLT ");
    }
    let mut alt = String::new();
    alt.append("ALT ");
    push_volts(&mut alt, d.start_volts_x10);
    alt.append(" ");
    push_amps(&mut alt, d.alt_amps_x100);

    let mut sol = String::new();
    sol.append("SOL ");
    push_volts(&mut sol, d.solar_volts_x10);
    sol.append(" ");
    push_amps(&mut sol, d.solar_amps_x100);

    let mut input = String::new();
    input.append("IN ");
    push_decimal(&mut input, d.alt_watts as u32 + d.solar_watts as u32);
    input.append("W");

    let mut temps = String::new();
    temps.append("CTL ");
    push_temp(&mut temps, d.controller_temp);
    temps.append(" BAT ");
    push_temp(&mut temps, d.battery_temp);

    let mut day = String::new();
    day.append("DAY ");
    push_volts(&mut day, d.min_volts_x10);
    day.append("-");
    push_volts(&mut day, d.max_volts_x10);

    let mut ah = String::new();
    ah.append("AH ");
    push_decimal(&mut ah, d.ah_today as u32);

    let mut faults = String::new();
    faults.append("FLT ");
    push_hex4(&mut faults, st.faults[0]);
    faults.append(" ");
    push_hex4(&mut faults, st.faults[1]);

    let mut lines: Vec<String> = Vec::new();
    lines.push(alt);
    lines.push(sol);
    lines.push(input);
    lines.push(temps);
    lines.push(day);
    lines.push(ah);
    lines.push(faults);
    let ghost want = extras_lines(*d, *st);
    assert(lines@[0]@ == want[0]);
    assert(lines@[1]@ == want[1]);
    assert(lines@[2]@ == want[2]);
    assert(lines@[3]@ == want[3]);
    assert(lines@[4]@ == want[4]);
    assert(lines@[5]@ == want[5]);
    assert(lines@[6]@ == want[6]);
    assert(Seq::new(lines@.len(), |k: int| lines@[k]@) =~= extras_lines(*d, *st));
    lines
}

proof fn lemma_extras_lines_short(d: ChargerData, st: StateInfo)
    ensures
        forall|k: int| 0 <= k < 7 ==> (#[trigger] extras_lines(d, st)[k]).len() <= 1000,
{
    lemma_decimal_len((d.start_volts_x10 / 10) as nat);
    lemma_decimal_len((d.start_volts_x10 % 10) as nat);
    lemma_decimal_len((d.alt_amps_x100 / 100) as nat);
    lemma_decimal_len(((d.alt_amps_x100 % 100) / 10) as nat);
    lemma_decimal_len((d.solar_volts_x10 / 10) as nat);
    lemma_decimal_len((d.solar_volts_x10 % 10) as nat);
    lemma_decimal_len((d.solar_amps_x100 / 100) as nat);
    lemma_decimal_len(((d.solar_amps_x100 % 100) / 10) as nat);
    lemma_decimal_len((d.alt_watts + d.solar_watts) as nat);
    lemma_decimal_len(if d.controller_temp < 0 { (-d.controller_temp) as nat } else { d.controller_temp as nat });
    lemma_decimal_len(if d.battery_temp < 0 { (-d.battery_temp) as nat } else { d.battery_temp as nat });
    lemma_decimal_len((d.min_volts_x10 / 10) as nat);
    lemma_decimal_len((d.min_volts_x10 % 10) as nat);
    lemma_decimal_len((d.max_volts_x10 / 10) as nat);
    lemma_decimal_len((d.max_volts_x10 % 10) as nat);
    lemma_decimal_len(d.ah_today as nat);
}

/// Draws the extras screen for `d` and `st` into `display` (line `k` of
/// [`extras_lines`] at (0, 9 * k), scale 1) and returns the writes that
/// show it.
pub fn show_extras(display: &mut Sh1106, d: &ChargerData, st: &StateInfo) -> (writes: Vec<SpiWrite>)
    ensures
        final(display)@.len() == 1024,
        forall|px: int, py: int|
            on_screen(px, py) ==> #[trigger] lit(final(display)@, px, py) == lines_cover(
                extras_lines(*d, *st),
                px,
                py,
            ),
        flush_matches(final(display)@, writes@),
{
    let lines = fmt_extras_lines(d, st);
    proof {
        lemma_extras_lines_short(*d, *st);
        assert forall|k: int| 0 <= k < lines@.len() implies (#[trigger] lines@[k])@.len() <= 1000 by {
            assert(Seq::new(lines@.len(), |k: int| lines@[k]@)[k] == lines@[k]@);
        }
    }
    display.clear();
    proof {
        display.lemma_len();
    }
    let ghost b0 = display@;
    draw_lines(display, &lines);
    proof {
        lemma_blank_then_adds(
            b0,
            display@,
            |px: int, py: int| false,
            |px: int, py: int| lines_cover(Seq::new(lines@.len(), |k: int| lines@[k]@), px, py),
            |px: int, py: int| lines_cover(extras_lines(*d, *st), px, py),
        );
    }
    display.flush()
}

} // verus!
