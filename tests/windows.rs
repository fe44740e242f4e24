use rgba_canvas::window::LuaWindow;

#[test]
fn new_window_is_blank() {
    let w = LuaWindow::new("w".to_string(), 3, 2);
    assert_eq!(w.id, "w");
    assert_eq!((w.x, w.y), (0, 0));
    assert_eq!(w.canvas.unsafe_get_buffer(), vec![0u8; 24]);
}

#[test]
fn window_drawing_goes_to_its_buffer() {
    let mut w = LuaWindow::new("w".to_string(), 6, 6);
    w.point(0, 0, 1, 1, 1, 255);
    w.unsafe_point(5, 5, 2, 2, 2, 255);
    w.line(0, 2, 3, 2, 3, 3, 3, 255);
    w.circle(3, 3, 1, 4, 4, 4, 255);
    assert_eq!(w.canvas.get_point(0, 0), (1, 1, 1, 255));
    assert_eq!(w.canvas.get_point(5, 5), (2, 2, 2, 255));
    assert_eq!(w.canvas.get_point(0, 2), (3, 3, 3, 255));
    assert_eq!(w.canvas.get_point(4, 3), (4, 4, 4, 255));
}

#[test]
fn window_fillrect_takes_corners() {
    let mut w = LuaWindow::new("w".to_string(), 5, 5);
    w.fillrect(3, 4, 1, 3, 9, 9, 9, 255);
    for y in 0..5 {
        for x in 0..5 {
            let inside = (1..=3).contains(&x) && (3..=4).contains(&y);
            let expected = if inside { (9, 9, 9, 255) } else { (0, 0, 0, 0) };
            assert_eq!(w.canvas.get_point(x, y), expected);
        }
    }
}

#[test]
fn window_fillrect_far_outside() {
    let mut w = LuaWindow::new("w".to_string(), 2, 2);
    w.fillrect(i32::MIN, i32::MIN, i32::MAX, 0, 9, 9, 9, 255);
    assert_eq!(w.canvas.get_point(0, 0), (9, 9, 9, 255));
    assert_eq!(w.canvas.get_point(1, 1), (0, 0, 0, 0));
}

#[test]
fn window_cls_and_scroll() {
    let mut w = LuaWindow::new("w".to_string(), 2, 2);
    w.cls(5, 5, 5, 255);
    w.point(0, 0, 1, 1, 1, 255);
    w.scroll(0, 1, 0, 0, 0, 255);
    assert_eq!(w.canvas.get_point(0, 0), (0, 0, 0, 255));
    assert_eq!(w.canvas.get_point(0, 1), (1, 1, 1, 255));
    assert_eq!(w.canvas.get_point(1, 1), (5, 5, 5, 255));
}

#[test]
fn window_rect_takes_corners() {
    let mut w = LuaWindow::new("w".to_string(), 4, 4);
    w.rect(0, 0, 2, 2, 9, 9, 9, 255);
    assert_eq!(w.canvas.get_point(2, 2), (9, 9, 9, 255));
    assert_eq!(w.canvas.get_point(1, 1), (0, 0, 0, 0));
}
