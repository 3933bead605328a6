use fractal_worker::screen::{blend_channel, fill_checkerboard};

#[test]
fn checkerboard_squares_of_ten() {
    let mut screen = vec![7u8; 25 * 2 * 4 + 3];
    fill_checkerboard(&mut screen, (25, 2));
    let px = |x: usize, y: usize| screen[(y * 25 + x) * 4..(y * 25 + x) * 4 + 4].to_vec();
    assert_eq!(px(0, 0), vec![0x99, 0x99, 0x99, 0xff]);
    assert_eq!(px(9, 1), vec![0x99, 0x99, 0x99, 0xff]);
    assert_eq!(px(10, 0), vec![0x66, 0x66, 0x66, 0xff]);
    assert_eq!(px(20, 1), vec![0x99, 0x99, 0x99, 0xff]);
    // bytes after the last whole pixel are kept
    assert_eq!(&screen[200..], &[7, 7, 7]);
}

#[test]
fn checkerboard_stops_at_short_buffer() {
    let mut screen = vec![1u8; 10];
    fill_checkerboard(&mut screen, (4, 4));
    assert_eq!(&screen[0..8], &[0x99, 0x99, 0x99, 0xff, 0x99, 0x99, 0x99, 0xff]);
    assert_eq!(&screen[8..], &[1, 1]);
}

#[test]
fn checkerboard_rows_alternate() {
    let mut screen = vec![0u8; 1 * 11 * 4];
    fill_checkerboard(&mut screen, (1, 11));
    assert_eq!(screen[9 * 4], 0x99);
    assert_eq!(screen[10 * 4], 0x66);
}

#[test]
fn blend_halves_each() {
    assert_eq!(blend_channel(0x99, 0xff), 0x4c + 0x7f);
    assert_eq!(blend_channel(1, 1), 0);
    assert_eq!(blend_channel(255, 255), 254);
}
