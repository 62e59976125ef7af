//! 8x8 ASCII font backed by the public-domain `font8x8` glyph set.
//! Each glyph is 8 rows; in font8x8 the LSB is the leftmost pixel.
use font8x8::legacy::BASIC_LEGACY;
use vstd::prelude::*;

verus! {

pub const GLYPH_WIDTH: i32 = 8;

pub const GLYPH_HEIGHT: i32 = 8;

/// The eight row bytes of entry `idx` of `font8x8::legacy::BASIC_LEGACY`
/// (the glyph of the code point `idx`, for the 128 basic-latin points).
pub uninterp spec fn basic_legacy_glyph(idx: usize) -> Seq<u8>;

/// Looks up entry `idx` of `font8x8::legacy::BASIC_LEGACY`, an array of 128
/// glyphs (`[[u8; 8]; 128]` in the crate's source). Trusted: the entry is
/// present exactly when `idx < 128`, and its bytes are the named glyph.
#[verifier::external_body]
fn basic_legacy_get(idx: usize) -> (entry: Option<[u8; 8]>)
    ensures
        entry is Some <==> idx < 128,
        entry matches Some(rows) ==> rows@ == basic_legacy_glyph(idx),
{
    BASIC_LEGACY.get(idx).copied()
}

/// The glyph rows shown for `c`: the font's entry for the basic-latin code
/// points, all blank for any other character.
pub open spec fn glyph_spec(c: char) -> Seq<u8> {
    if (c as int) < 128 {
        basic_legacy_glyph(c as usize)
    } else {
        Seq::new(8, |i: int| 0u8)
    }
}

/// Every basic-latin character (code point below 128) is drawn with the
/// font table's entry for its code point; every other character is blank.
pub proof fn lemma_glyph_table(c: char)
    ensures
        (c as int) < 128 ==> glyph_spec(c) == basic_legacy_glyph(c as usize),
        (c as int) >= 128 ==> glyph_spec(c).len() == 8 && forall|r: int|
            0 <= r < 8 ==> glyph_spec(c)[r] == 0u8,
{
}

pub fn glyph(c: char) -> (rows: [u8; 8])
    ensures
        rows@ == glyph_spec(c),
        (c as int) < 128 ==> rows@ == basic_legacy_glyph(c as usize),
        (c as int) >= 128 ==> forall|r: int| 0 <= r < 8 ==> rows@[r] == 0u8,
{
    let idx = c as usize;
    match basic_legacy_get(idx) {
        Some(rows) => rows,
        None => {
            let rows = [0u8; 8];
            assert(rows@ =~= Seq::new(8, |i: int| 0u8));
            rows
        },
    }
}

} // verus!
