use rgba_canvas::blit::{CanvasError, ImageData};
use rgba_canvas::canvas::RGBABufferBase;

fn image(w: u32, h: u32, alpha: u8) -> ImageData {
    let mut data = Vec::new();
    for y in 0..h {
        for x in 0..w {
            data.extend_from_slice(&[x as u8 + 1, y as u8 + 1, 7, alpha]);
        }
    }
    ImageData::new(w, h, data).unwrap()
}

#[test]
fn image_with_wrong_byte_count_is_refused() {
    assert_eq!(ImageData::new(2, 2, vec![0; 15]).err(), Some(CanvasError::InvalidDimensions));
    assert!(ImageData::new(2, 2, vec![0; 16]).is_ok());
}

#[test]
fn opaque_blit_copies_the_rectangle() {
    let img = image(4, 3, 255);
    let mut b = RGBABufferBase::new(5, 5, None);
    b.clear(50, 50, 50, 255);
    assert_eq!(b.drawimage(&img, 1, 2, Some(1), Some(1), Some(2), Some(2)), Ok(()));
    for y in 0..5i32 {
        for x in 0..5i32 {
            let expected = if (1..3).contains(&x) && (2..4).contains(&y) {
                ((x - 1 + 1 + 1) as u8, (y - 2 + 1 + 1) as u8, 7, 255)
            } else {
                (50, 50, 50, 255)
            };
            assert_eq!(b.get_point(x, y), expected, "pixel {} {}", x, y);
        }
    }
}

#[test]
fn blit_defaults_to_the_whole_image_and_clips() {
    let img = image(3, 2, 255);
    let mut b = RGBABufferBase::new(3, 3, None);
    assert_eq!(b.drawimage(&img, 1, -1, None, None, None, None), Ok(()));
    assert_eq!(b.get_point(1, 0), (1, 2, 7, 255));
    assert_eq!(b.get_point(2, 0), (2, 2, 7, 255));
    assert_eq!(b.get_point(0, 0), (0, 0, 0, 0));
    assert_eq!(b.get_point(1, 1), (0, 0, 0, 0));
}

#[test]
fn blit_of_a_default_size_from_an_offset() {
    let img = image(3, 2, 255);
    let mut b = RGBABufferBase::new(3, 3, None);
    assert_eq!(b.drawimage(&img, 0, 0, Some(2), Some(1), None, None), Ok(()));
    assert_eq!(b.get_point(0, 0), (3, 2, 7, 255));
    assert_eq!(b.get_point(1, 0), (0, 0, 0, 0));
}

#[test]
fn blit_beyond_the_image_is_refused() {
    let img = image(3, 2, 255);
    let mut b = RGBABufferBase::new(3, 3, None);
    assert_eq!(
        b.drawimage(&img, 0, 0, Some(2), None, Some(2), None),
        Err(CanvasError::CropOutOfBounds)
    );
    assert_eq!(b.drawimage(&img, 0, 0, None, Some(3), None, None), Err(CanvasError::CropOutOfBounds));
    assert_eq!(b.unsafe_get_buffer(), vec![0u8; 36]);
}

#[test]
fn translucent_blit_composites() {
    let img = ImageData::new(1, 1, vec![255, 0, 0, 128]).unwrap();
    let mut b = RGBABufferBase::new(1, 1, None);
    b.clear(0, 0, 255, 255);
    assert_eq!(b.drawimage(&img, 0, 0, None, None, None, None), Ok(()));
    assert_eq!(b.get_point(0, 0), (128, 0, 127, 255));
}

#[test]
fn capture_copies_and_pads_with_transparent_black() {
    let mut b = RGBABufferBase::new(3, 3, None);
    b.point(0, 0, 1, 2, 3, 255);
    b.point(2, 2, 4, 5, 6, 255);
    let img = b.captureimage(-1, -1, 2, 2);
    assert_eq!(img.width, 2);
    assert_eq!(img.height, 2);
    assert_eq!(img.data, vec![0, 0, 0, 0, 0, 0, 0, 0, 0, 0, 0, 0, 1, 2, 3, 255]);
    let whole = b.captureimage(0, 0, 3, 3);
    assert_eq!(whole.data, b.unsafe_get_buffer());
}
