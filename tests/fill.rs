use rgba_canvas::canvas::RGBABufferBase;
use rgba_canvas::flood::flood_fill;
use rgba_canvas::window::LuaWindow;

const RED: (u8, u8, u8, u8) = (255, 0, 0, 255);
const BLUE: (u8, u8, u8, u8) = (0, 0, 255, 255);

/// A 7 by 6 buffer with a red ring around the 3 by 2 box (2..5, 2..4).
fn ring() -> RGBABufferBase {
    let mut b = RGBABufferBase::new(7, 6, None);
    b.rect(1, 1, 4, 3, 255, 0, 0, 255);
    b
}

#[test]
fn fill_of_enclosed_region() {
    let mut b = ring();
    let n = b.paint(3, 2, 0, 0, 255, 255, 255, 0, 0, 255);
    assert_eq!(n, 6);
    for y in 0..6 {
        for x in 0..7 {
            let inside = (2..5).contains(&x) && (2..4).contains(&y);
            let on_ring = !inside && (1..6).contains(&x) && (1..5).contains(&y);
            let expected = if inside {
                BLUE
            } else if on_ring {
                RED
            } else {
                (0, 0, 0, 0)
            };
            assert_eq!(b.get_point(x, y), expected, "pixel {} {}", x, y);
        }
    }
}

#[test]
fn second_fill_changes_nothing() {
    let mut b = ring();
    assert_eq!(b.paint(2, 3, 0, 0, 255, 255, 255, 0, 0, 255), 6);
    let before = b.unsafe_get_buffer();
    assert_eq!(b.paint(2, 3, 0, 0, 255, 255, 255, 0, 0, 255), 0);
    assert_eq!(b.unsafe_get_buffer(), before);
}

#[test]
fn fill_from_the_boundary_or_off_the_grid_does_nothing() {
    let mut b = ring();
    let before = b.unsafe_get_buffer();
    assert_eq!(b.paint(1, 1, 0, 0, 255, 255, 255, 0, 0, 255), 0);
    assert_eq!(b.paint(-1, 0, 0, 0, 255, 255, 255, 0, 0, 255), 0);
    assert_eq!(b.paint(7, 0, 0, 0, 255, 255, 255, 0, 0, 255), 0);
    assert_eq!(b.unsafe_get_buffer(), before);
}

#[test]
fn outside_fill_goes_round_the_ring() {
    let mut b = ring();
    let n = b.paint(0, 0, 0, 0, 255, 255, 255, 0, 0, 255);
    assert_eq!(n, 7 * 6 - 14 - 6);
    assert_eq!(b.get_point(3, 2), (0, 0, 0, 0));
    assert_eq!(b.get_point(6, 5), BLUE);
}

#[test]
fn fill_colour_also_stops_the_fill() {
    let mut b = RGBABufferBase::new(4, 1, None);
    b.point(2, 0, 0, 0, 255, 255);
    let n = b.paint(0, 0, 0, 0, 255, 255, 255, 0, 0, 255);
    assert_eq!(n, 2);
    assert_eq!(b.get_point(3, 0), (0, 0, 0, 0));
}

#[test]
fn translucent_fill_composites() {
    let mut b = RGBABufferBase::new(2, 1, None);
    b.clear(0, 0, 255, 255);
    let n = b.paint(0, 0, 255, 0, 0, 128, 0, 255, 0, 255);
    assert_eq!(n, 2);
    assert_eq!(b.get_point(1, 0), (128, 0, 127, 255));
}

#[test]
fn scratch_storage_is_reused() {
    let mut b = ring();
    let mut stack = vec![(100, 100); 3];
    let mut visited = vec![true; 2];
    let n = flood_fill(&mut b, &mut stack, &mut visited, 3, 3, BLUE, RED);
    assert_eq!(n, 6);
    let n2 = flood_fill(&mut b, &mut stack, &mut visited, 0, 0, BLUE, RED);
    assert_eq!(n2, 22);
}

#[test]
fn window_paint_counts() {
    let mut w = LuaWindow::new("main".to_string(), 7, 6);
    w.rect(1, 1, 5, 4, 255, 0, 0, 255);
    assert_eq!(w.paint(3, 3, 0, 0, 255, 255, 255, 0, 0, 255), 6);
    assert_eq!(w.paint(3, 3, 0, 0, 255, 255, 255, 0, 0, 255), 0);
    assert_eq!(w.canvas.get_point(4, 3), BLUE);
}
