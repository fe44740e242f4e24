use rgba_canvas::blit::CanvasError;
use rgba_canvas::canvas::RGBABufferBase;
use rgba_canvas::text::{Glyph, advance_for_width};
use rgba_canvas::window::LuaWindow;

#[test]
fn narrow_and_wide_characters() {
    let b = RGBABufferBase::new(1, 1, None);
    assert_eq!(b.text_metrics("あA"), (24, 16));
    assert_eq!(b.text_metrics("A"), (8, 16));
    assert_eq!(b.text_metrics("あ"), (16, 16));
    assert_eq!(b.text_metrics(""), (0, 16));
}

#[test]
fn control_characters_take_the_full_size() {
    let mut b = RGBABufferBase::new(1, 1, None);
    b.set_text_font_size(10);
    assert_eq!(b.text_metrics("\u{7}a"), (15, 10));
}

#[test]
fn advance_policy() {
    assert_eq!(advance_for_width(Some(1), 16), 8);
    assert_eq!(advance_for_width(Some(2), 16), 16);
    assert_eq!(advance_for_width(None, 16), 16);
    assert_eq!(advance_for_width(Some(1), 15), 7);
}

#[test]
fn glyph_with_wrong_coverage_size_is_refused() {
    assert_eq!(Glyph::new(0, 0, 2, 2, vec![0; 3]).err(), Some(CanvasError::InvalidDimensions));
    assert!(Glyph::new(0, 0, 2, 2, vec![0; 4]).is_ok());
}

#[test]
fn glyphs_are_bottom_aligned_and_advance() {
    let mut b = RGBABufferBase::new(24, 20, None);
    b.set_text_font_size(8);
    b.set_text_color(10, 20, 30, 255);
    let g = Glyph::new(0, 0, 2, 2, vec![255, 0, 255, 255]).unwrap();
    let glyphs = vec![Glyph::new(0, 0, 2, 2, vec![255, 0, 255, 255]).unwrap(), g];
    let r = b.text(1, 2, "AB", &glyphs);
    assert_eq!(r, (8, 8));
    // bottom at y + size = 10, so rows 8 and 9; second glyph at x = 1 + 4
    assert_eq!(b.get_point(1, 8), (10, 20, 30, 255));
    assert_eq!(b.get_point(2, 8), (0, 0, 0, 0));
    assert_eq!(b.get_point(1, 9), (10, 20, 30, 255));
    assert_eq!(b.get_point(2, 9), (10, 20, 30, 255));
    assert_eq!(b.get_point(5, 8), (10, 20, 30, 255));
    assert_eq!(b.get_point(6, 9), (10, 20, 30, 255));
    assert_eq!(b.get_point(1, 7), (0, 0, 0, 0));
}

#[test]
fn glyph_offsets_and_partial_coverage() {
    let mut b = RGBABufferBase::new(10, 10, None);
    b.set_text_font_size(6);
    b.set_text_color(255, 255, 255, 255);
    let glyphs = vec![Glyph::new(1, 2, 1, 1, vec![128]).unwrap()];
    assert_eq!(b.text(0, 0, "x", &glyphs), (3, 6));
    // top = 0 + 6 - 1 - 2 = 3, left = 0 + 1
    assert_eq!(b.get_point(1, 3), (255, 255, 255, 128));
}

#[test]
fn window_text_and_style() {
    let mut w = LuaWindow::new("t".to_string(), 4, 4);
    w.set_text_color(1, 2, 3, 255);
    w.set_text_font_size(2);
    assert_eq!(w.get_text_color(), (1, 2, 3, 255));
    assert_eq!(w.get_text_font_size(), 2);
    let glyphs = vec![Glyph::new(0, 0, 1, 1, vec![255]).unwrap()];
    assert_eq!(w.text(0, 0, "あ", &glyphs), (2, 2));
    assert_eq!(w.canvas.get_point(0, 1), (1, 2, 3, 255));
}
