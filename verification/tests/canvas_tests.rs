use fractal_worker::pixel_canvas::{Pixel, PixelCanvas};

fn px(x: u32, y: u32, r: u8) -> Pixel {
    Pixel { x, y, r, g: 0, b: 0 }
}

#[test]
fn receive_appends_in_order() {
    let mut c = PixelCanvas::new(3, 3);
    c.receive_into_buf(vec![px(0, 0, 1), px(1, 1, 2)]);
    c.receive_into_buf(vec![px(2, 2, 3)]);
    assert_eq!(c.buf(), &vec![px(0, 0, 1), px(1, 1, 2), px(2, 2, 3)]);
    assert_eq!(c.get_size(), (3, 3));
}

#[test]
fn offset_moves_with_drag_and_drops_leavers() {
    let mut c = PixelCanvas::new(3, 3);
    c.receive_into_buf(vec![px(0, 0, 1), px(2, 1, 2)]);
    let moved = c.apply_offset((1, 0));
    assert_eq!(moved, (-1, 0));
    assert_eq!(c.buf(), &vec![px(1, 0, 1)]);
}

#[test]
fn offset_round_trip_keeps_survivors() {
    let mut c = PixelCanvas::new(4, 4);
    c.receive_into_buf(vec![px(0, 0, 1), px(3, 3, 2)]);
    c.apply_offset((-1, -1));
    assert_eq!(c.buf(), &vec![px(2, 2, 2)]);
    c.apply_offset((1, 1));
    assert_eq!(c.buf(), &vec![px(3, 3, 2)]);
}

#[test]
fn resize_keeps_middles_together() {
    let mut c = PixelCanvas::new(4, 4);
    c.receive_into_buf(vec![px(2, 2, 1), px(0, 0, 2)]);
    c.apply_resize((2, 2));
    assert_eq!(c.get_size(), (2, 2));
    assert_eq!(c.buf(), &vec![px(1, 1, 1)]);
}

#[test]
fn zoom_positions_place_pixels() {
    let mut c = PixelCanvas::new(2, 2);
    c.receive_into_buf(vec![px(0, 0, 1), px(1, 1, 2)]);
    c.apply_zoom_positions(&vec![(1, 0), (2, 0)]);
    assert_eq!(c.buf(), &vec![px(1, 0, 1)]);
}

#[test]
fn draw_background_and_later_pixels_win() {
    let mut c = PixelCanvas::new(2, 1);
    c.receive_into_buf(vec![px(0, 0, 10), px(0, 0, 20), px(1, 0, 30)]);
    let mut screen = vec![1u8; 2 * 2 * 4 + 1];
    c.draw_full_buffer_with_offset(0, 1, &mut screen, 2, 2);
    assert_eq!(&screen[0..8], &[0x50, 0, 0, 0xff, 0x50, 0, 0, 0xff]);
    assert_eq!(&screen[8..12], &[20, 0, 0, 0xff]);
    assert_eq!(&screen[12..16], &[30, 0, 0, 0xff]);
    assert_eq!(screen[16], 1);
}
