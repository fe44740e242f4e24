use rgba_canvas::canvas::RGBABufferBase;

const RED: (u8, u8, u8, u8) = (255, 0, 0, 255);
const CLEAR: (u8, u8, u8, u8) = (0, 0, 0, 0);

fn lit(b: &RGBABufferBase) -> Vec<(i32, i32)> {
    let mut v = Vec::new();
    for y in 0..b.height as i32 {
        for x in 0..b.width as i32 {
            if b.get_point(x, y) != CLEAR {
                v.push((x, y));
            }
        }
    }
    v
}

#[test]
fn horizontal_line_covers_its_run_only() {
    let mut b = RGBABufferBase::new(8, 3, None);
    b.line(0, 0, 4, 0, 255, 0, 0, 255);
    for x in 0..5 {
        assert_eq!(b.get_point(x, 0), RED);
    }
    for x in 5..8 {
        assert_eq!(b.get_point(x, 0), CLEAR);
    }
    assert_eq!(lit(&b).len(), 5);
}

#[test]
fn reversed_and_vertical_lines() {
    let mut b = RGBABufferBase::new(6, 6, None);
    b.line(4, 1, 1, 1, 255, 0, 0, 255);
    assert_eq!(lit(&b), vec![(1, 1), (2, 1), (3, 1), (4, 1)]);
    let mut c = RGBABufferBase::new(6, 6, None);
    c.line(2, 5, 2, 3, 255, 0, 0, 255);
    assert_eq!(lit(&c), vec![(2, 3), (2, 4), (2, 5)]);
}

#[test]
fn diagonal_line_hits_both_ends() {
    let mut b = RGBABufferBase::new(6, 6, None);
    b.line(0, 0, 5, 5, 255, 0, 0, 255);
    assert_eq!(lit(&b), vec![(0, 0), (1, 1), (2, 2), (3, 3), (4, 4), (5, 5)]);
    let mut c = RGBABufferBase::new(6, 6, None);
    c.line(0, 0, 5, 2, 255, 0, 0, 255);
    let pts = lit(&c);
    assert!(pts.contains(&(0, 0)));
    assert!(pts.contains(&(5, 2)));
    assert_eq!(pts.len(), 6);
}

#[test]
fn line_off_the_grid_is_clipped() {
    let mut b = RGBABufferBase::new(4, 4, None);
    b.line(-10, 1, 10, 1, 255, 0, 0, 255);
    assert_eq!(lit(&b), vec![(0, 1), (1, 1), (2, 1), (3, 1)]);
}

#[test]
fn single_point_line() {
    let mut b = RGBABufferBase::new(3, 3, None);
    b.line(1, 2, 1, 2, 255, 0, 0, 255);
    assert_eq!(lit(&b), vec![(1, 2)]);
}

#[test]
fn circle_is_symmetric() {
    let mut b = RGBABufferBase::new(15, 15, None);
    b.circle(7, 7, 5, 255, 0, 0, 255);
    let pts = lit(&b);
    assert!(!pts.is_empty());
    for &(x, y) in &pts {
        let (u, v) = (x - 7, y - 7);
        for (a, c) in [(u, v), (-u, v), (u, -v), (-u, -v), (v, u), (-v, u), (v, -u), (-v, -u)] {
            assert!(pts.contains(&(7 + a, 7 + c)));
        }
    }
    assert!(pts.contains(&(12, 7)));
    assert!(pts.contains(&(7, 2)));
    assert!(!pts.contains(&(7, 7)));
}

#[test]
fn circle_of_radius_zero_or_less_is_its_centre() {
    let mut b = RGBABufferBase::new(5, 5, None);
    b.circle(2, 2, 0, 255, 0, 0, 255);
    assert_eq!(lit(&b), vec![(2, 2)]);
    let mut c = RGBABufferBase::new(5, 5, None);
    c.circle(1, 3, -4, 255, 0, 0, 255);
    assert_eq!(lit(&c), vec![(1, 3)]);
}

#[test]
fn rect_outline() {
    let mut b = RGBABufferBase::new(5, 5, None);
    b.rect(1, 1, 2, 2, 255, 0, 0, 255);
    assert_eq!(lit(&b), vec![(1, 1), (2, 1), (3, 1), (1, 2), (3, 2), (1, 3), (2, 3), (3, 3)]);
}

#[test]
fn fillrect_composites_the_clipped_box() {
    let mut b = RGBABufferBase::new(4, 4, None);
    b.fillrect(2, -1, 5, 3, 255, 0, 0, 255);
    assert_eq!(lit(&b), vec![(2, 0), (3, 0), (2, 1), (3, 1)]);
    let mut c = RGBABufferBase::new(4, 4, None);
    c.fillrect(1, 1, 0, 2, 255, 0, 0, 255);
    c.fillrect(1, 1, -2, 2, 255, 0, 0, 255);
    assert!(lit(&c).is_empty());
}

#[test]
fn line_tie_takes_the_diagonal_step() {
    let mut b = RGBABufferBase::new(4, 4, None);
    b.line(0, 0, 2, 1, 255, 0, 0, 255);
    assert_eq!(lit(&b), vec![(0, 0), (1, 1), (2, 1)]);
}

#[test]
fn circle_of_radius_one_has_its_diagonals() {
    let mut b = RGBABufferBase::new(5, 5, None);
    b.circle(2, 2, 1, 255, 0, 0, 255);
    assert_eq!(
        lit(&b),
        vec![(1, 1), (2, 1), (3, 1), (1, 2), (3, 2), (1, 3), (2, 3), (3, 3)]
    );
}
