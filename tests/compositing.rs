use rgba_canvas::color::{composite, same_color};

#[test]
fn opaque_source_replaces_destination() {
    assert_eq!(composite((10, 20, 30, 255), (200, 100, 50, 128)), (10, 20, 30, 255));
    assert_eq!(composite((0, 0, 0, 255), (255, 255, 255, 255)), (0, 0, 0, 255));
}

#[test]
fn transparent_source_keeps_destination() {
    assert_eq!(composite((1, 2, 3, 0), (200, 100, 50, 128)), (200, 100, 50, 128));
    assert_eq!(composite((9, 9, 9, 0), (0, 0, 0, 0)), (0, 0, 0, 0));
}

#[test]
fn half_red_over_opaque_blue() {
    // out_a = 128 + 255 * 127 / 255 = 255
    // r = (255 * 128) / 255 = 128; b = (255 * 255 * 127 / 255) / 255 = 127
    assert_eq!(composite((255, 0, 0, 128), (0, 0, 255, 255)), (128, 0, 127, 255));
}

#[test]
fn zero_result_alpha_gives_transparent_black() {
    assert_eq!(composite((5, 6, 7, 0), (9, 10, 11, 0)), (0, 0, 0, 0));
}

#[test]
fn partial_over_transparent() {
    // out_a = 100; r = (200 * 100) / 100 = 200
    assert_eq!(composite((200, 50, 0, 100), (0, 0, 0, 0)), (200, 50, 0, 100));
}

#[test]
fn colour_equality_checks_all_channels() {
    assert!(same_color((1, 2, 3, 4), (1, 2, 3, 4)));
    assert!(!same_color((1, 2, 3, 4), (1, 2, 3, 5)));
}
