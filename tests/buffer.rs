use rgba_canvas::canvas::RGBABufferBase;

#[test]
fn new_buffer_is_transparent_black() {
    let b = RGBABufferBase::new(3, 2, None);
    assert_eq!(b.width, 3);
    assert_eq!(b.height, 2);
    assert_eq!(b.unsafe_get_buffer(), vec![0u8; 24]);
    assert_eq!(b.get_text_color(), (255, 255, 255, 255));
    assert_eq!(b.get_text_font_size(), 16);
    assert_eq!(b.get_fontpath(), "assets/fonts.ttf".to_string());
}

#[test]
fn new_buffer_keeps_given_bytes() {
    let bytes: Vec<u8> = (0..8).collect();
    let b = RGBABufferBase::new(2, 1, Some(&bytes));
    assert_eq!(b.get_point(0, 0), (0, 1, 2, 3));
    assert_eq!(b.get_point(1, 0), (4, 5, 6, 7));
}

#[test]
fn empty_buffer_is_allowed() {
    let mut b = RGBABufferBase::new(0, 0, None);
    b.clear(1, 2, 3, 4);
    b.point(0, 0, 1, 1, 1, 255);
    assert_eq!(b.get_point(0, 0), (0, 0, 0, 0));
    assert!(b.unsafe_get_buffer().is_empty());
}

#[test]
fn opaque_point_reads_back() {
    let mut b = RGBABufferBase::new(4, 4, None);
    b.point(2, 3, 10, 20, 30, 255);
    assert_eq!(b.get_point(2, 3), (10, 20, 30, 255));
    b.point(2, 3, 40, 50, 60, 255);
    assert_eq!(b.get_point(2, 3), (40, 50, 60, 255));
}

#[test]
fn point_composites() {
    let mut b = RGBABufferBase::new(2, 2, None);
    b.clear(0, 0, 255, 255);
    b.point(1, 1, 255, 0, 0, 128);
    assert_eq!(b.get_point(1, 1), (128, 0, 127, 255));
    b.unsafe_point(0, 0, 255, 0, 0, 128);
    assert_eq!(b.get_point(0, 0), (128, 0, 127, 255));
}

#[test]
fn points_off_the_grid_are_ignored() {
    let mut b = RGBABufferBase::new(2, 2, None);
    b.point(-1, 0, 255, 255, 255, 255);
    b.point(0, 2, 255, 255, 255, 255);
    b.point(2, 0, 255, 255, 255, 255);
    assert_eq!(b.unsafe_get_buffer(), vec![0u8; 16]);
}

#[test]
fn reading_off_the_grid_gives_transparent_black() {
    let mut b = RGBABufferBase::new(2, 2, None);
    b.clear(9, 9, 9, 9);
    assert_eq!(b.get_point(-1, 0), (0, 0, 0, 0));
    assert_eq!(b.get_point(0, -1), (0, 0, 0, 0));
    assert_eq!(b.get_point(2, 1), (0, 0, 0, 0));
    assert_eq!(b.get_point(1, 2), (0, 0, 0, 0));
}

#[test]
fn clear_sets_every_pixel() {
    let mut b = RGBABufferBase::new(5, 3, None);
    b.point(1, 1, 1, 2, 3, 255);
    b.clear(7, 8, 9, 10);
    for y in 0..3 {
        for x in 0..5 {
            assert_eq!(b.get_point(x, y), (7, 8, 9, 10));
        }
    }
}

#[test]
fn clear_one_by_one() {
    let mut b = RGBABufferBase::new(1, 1, None);
    b.clear(1, 2, 3, 4);
    assert_eq!(b.get_point(0, 0), (1, 2, 3, 4));
}

fn numbered(w: usize, h: usize) -> RGBABufferBase {
    let mut b = RGBABufferBase::new(w, h, None);
    for y in 0..h as i32 {
        for x in 0..w as i32 {
            b.point(x, y, x as u8, y as u8, 0, 255);
        }
    }
    b
}

#[test]
fn scroll_moves_content_and_fills() {
    let mut b = numbered(4, 3);
    b.scroll(1, 2, 9, 9, 9, 9);
    for y in 0..3i32 {
        for x in 0..4i32 {
            let expected = if x - 1 >= 0 && y - 2 >= 0 {
                ((x - 1) as u8, (y - 2) as u8, 0, 255)
            } else {
                (9, 9, 9, 9)
            };
            assert_eq!(b.get_point(x, y), expected);
        }
    }
}

#[test]
fn scroll_reads_a_snapshot() {
    let mut b = numbered(3, 1);
    b.scroll(1, 0, 0, 0, 0, 255);
    assert_eq!(b.get_point(0, 0), (0, 0, 0, 255));
    assert_eq!(b.get_point(1, 0), (0, 0, 0, 255));
    assert_eq!(b.get_point(2, 0), (1, 0, 0, 255));
}

#[test]
fn scroll_backwards_and_far() {
    let mut b = numbered(3, 3);
    b.scroll(-1, -1, 5, 5, 5, 5);
    assert_eq!(b.get_point(0, 0), (1, 1, 0, 255));
    assert_eq!(b.get_point(1, 1), (2, 2, 0, 255));
    assert_eq!(b.get_point(2, 2), (5, 5, 5, 5));
    b.scroll(i32::MAX, i32::MIN, 1, 1, 1, 1);
    assert_eq!(b.get_point(1, 1), (1, 1, 1, 1));
}

#[test]
fn text_style_setters() {
    let mut b = RGBABufferBase::new(1, 1, None);
    b.set_text_color(1, 2, 3, 4);
    b.set_text_font_size(24);
    b.set_fontpath("fonts/other.ttf");
    assert_eq!(b.get_text_color(), (1, 2, 3, 4));
    assert_eq!(b.get_text_font_size(), 24);
    assert_eq!(b.get_fontpath(), "fonts/other.ttf".to_string());
}
