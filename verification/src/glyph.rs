//! 8x8 bitmap glyphs for the text laid into document arenas.
use vstd::prelude::*;

verus! {

// The eight rows that `font8x8::legacy::BASIC_LEGACY` holds for the ASCII code
// `code`; each row packs its leftmost pixel in the lowest bit.
pub uninterp spec fn basic_legacy_glyph(code: nat) -> Seq<u8>;

/// Reads the rows of `font8x8::legacy::BASIC_LEGACY` for an ASCII code.
///
/// Trusted: the contract claims only that the result is the table's entry for
/// `code`, whatever that entry is.
#[verifier::external_body]
fn legacy_glyph(code: usize) -> (rows: [u8; 8])
    requires
        code < 128,
    ensures
        rows@ == basic_legacy_glyph(code as nat),
{
    font8x8::legacy::BASIC_LEGACY[code]
}

/// The diamond shown for characters outside ASCII.
pub open spec fn placeholder_glyph() -> Seq<u8> {
    seq![0b00011000u8, 0b00111100u8, 0b01111110u8, 0b11111111u8, 0b01111110u8, 0b00111100u8, 0b00011000u8, 0b00000000u8]
}

/// The glyph rows for `character`, top row first: the font's ASCII glyph, or a
/// diamond placeholder outside ASCII (the folio panel shows the full text).
pub fn glyph_pixels(character: char) -> (rows: [u8; 8])
    ensures
        (character as u32) < 128 ==> rows@ == basic_legacy_glyph(character as nat),
        (character as u32) >= 128 ==> rows@ == placeholder_glyph(),
{
    let code = character as u32;
    if code < 128 {
        legacy_glyph(code as usize)
    } else {
        let rows: [u8; 8] = [
            0b00011000, 0b00111100, 0b01111110, 0b11111111, 0b01111110, 0b00111100, 0b00011000,
            0b00000000,
        ];
        assert(rows@ =~= placeholder_glyph());
        rows
    }
}

} // verus!
