use raptor::glyph::glyph_pixels;
use raptor::surfer::SurferPhase;

#[test]
fn font_rows_pack_the_leftmost_pixel_in_the_lowest_bit() {
    let top_bar = glyph_pixels('F')[0];
    assert!(top_bar & 1 != 0, "the top bar must start at bit 0");
    assert!(top_bar & (1 << 7) == 0, "and stop short of bit 7");
}

#[test]
fn ascii_glyphs_come_from_the_font_and_others_are_a_diamond() {
    assert_eq!(glyph_pixels('F'), font8x8::legacy::BASIC_LEGACY['F' as usize]);
    assert_eq!(glyph_pixels(' '), [0; 8]);
    let diamond = glyph_pixels('文');
    assert_eq!(
        diamond,
        [0b00011000, 0b00111100, 0b01111110, 0b11111111, 0b01111110, 0b00111100, 0b00011000, 0]
    );
}

#[test]
fn surfer_phase_labels() {
    assert_eq!(SurferPhase::Riding.label(), "RIDING");
    assert_eq!(SurferPhase::Finished.label(), "FINISHED");
    assert_eq!(SurferPhase::Crashed.label(), "WRECKED");
}
