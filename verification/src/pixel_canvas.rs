//! A canvas that keeps every pixel the render threads sent, to redraw and rearrange it.
use vstd::prelude::*;

use crate::index_math::lemma_row_major_bounds;
use crate::screen::{byte_at, lemma_pixel_bytes_bound, lemma_pixel_write, put_pixel_rgba};

verus! {

/// A rendered pixel: its position and colour.
#[derive(Debug, Clone, Copy, PartialEq, Eq, PartialOrd, Ord, Hash, Structural)]
pub struct Pixel {
    pub x: u32,
    pub y: u32,
    pub r: u8,
    pub g: u8,
    pub b: u8,
}

/// The pixels of `s` that `f` keeps, as `f` changes them, in order.
pub open spec fn filter_map_pixels(s: Seq<Pixel>, f: spec_fn(Pixel) -> Option<Pixel>) -> Seq<Pixel>
    decreases s.len(),
{
    if s.len() == 0 {
        Seq::empty()
    } else {
        let rest = filter_map_pixels(s.drop_last(), f);
        match f(s.last()) {
            Some(p) => rest.push(p),
            None => rest,
        }
    }
}

/// Pixel `p` moved to `(x, y)`, if that lies on a `w` by `h` canvas, the sides taken as `i32`.
pub open spec fn placed(p: Pixel, x: int, y: int, w: u32, h: u32) -> Option<Pixel> {
    if 0 <= x < w as i32 && 0 <= y < h as i32 {
        Some(Pixel { x: x as u32, y: y as u32, ..p })
    } else {
        None
    }
}

/// Pixel `p` after the picture moved by `(-dx, -dy)` on a `w` by `h` canvas.
pub open spec fn offset_pixel(p: Pixel, dx: i32, dy: i32, w: u32, h: u32) -> Option<Pixel> {
    placed(p, p.x as i32 - dx, p.y as i32 - dy, w, h)
}

/// Half of `v`, rounded toward zero.
pub open spec fn half_trunc(v: i32) -> int {
    if v >= 0 {
        v / 2
    } else {
        -((-v) / 2)
    }
}

/// Pixel `p` after the canvas went from `w` by `h` to `nw` by `nh`, the middles kept together.
pub open spec fn resized_pixel(p: Pixel, w: u32, h: u32, nw: u32, nh: u32) -> Option<Pixel> {
    placed(
        p,
        half_trunc(nw as i32) + (p.x as i32 - half_trunc(w as i32)),
        half_trunc(nh as i32) + (p.y as i32 - half_trunc(h as i32)),
        nw,
        nh,
    )
}

/// The last pixel of `s` that lands on screen position `(x, y)` when drawn at `(dx, dy)` on a
/// `sw` by `sh` screen.
pub open spec fn last_drawn_at(s: Seq<Pixel>, dx: i32, dy: i32, sw: u32, sh: u32, x: int, y: int) -> Option<Pixel>
    decreases s.len(),
{
    if s.len() == 0 {
        None
    } else {
        let p = s.last();
        let px = p.x as i32 + dx;
        let py = p.y as i32 + dy;
        if px == x && py == y && 0 <= px < sw as i32 && 0 <= py < sh as i32 {
            Some(p)
        } else {
            last_drawn_at(s.drop_last(), dx, dy, sw, sh, x, y)
        }
    }
}

/// The colour of an RGBA screen pixel showing `p`, opaque.
pub open spec fn pixel_rgba(p: Pixel) -> Seq<u8> {
    seq![p.r, p.g, p.b, 0xffu8]
}

/// The pixels of `s` placed where `positions` says, pixel by pixel, on a `w` by `h` canvas,
/// those that land outside dropped.
pub open spec fn placed_all(s: Seq<Pixel>, positions: Seq<(i32, i32)>, w: u32, h: u32) -> Seq<Pixel>
    decreases s.len(),
{
    if s.len() == 0 {
        Seq::empty()
    } else {
        let rest = placed_all(s.drop_last(), positions.drop_last(), w, h);
        match placed(s.last(), positions.last().0 as int, positions.last().1 as int, w, h) {
            Some(p) => rest.push(p),
            None => rest,
        }
    }
}

/// Taking one more pixel of `s` adds what `f` makes of it.
pub proof fn lemma_filter_map_step(s: Seq<Pixel>, f: spec_fn(Pixel) -> Option<Pixel>, i: int)
    requires
        0 <= i < s.len(),
    ensures
        filter_map_pixels(s.take(i + 1), f) == match f(s[i]) {
            Some(p) => filter_map_pixels(s.take(i), f).push(p),
            None => filter_map_pixels(s.take(i), f),
        },
{
    assert(s.take(i + 1).drop_last() =~= s.take(i));
    assert(s.take(i + 1).last() == s[i]);
}

/// The background of a canvas drawing.
pub open spec fn canvas_background() -> Seq<u8> {
    seq![0x50u8, 0x00u8, 0x00u8, 0xffu8]
}

/// Half of `v`, rounded toward zero.
pub fn div2(v: i32) -> (r: i32)
    ensures
        r == half_trunc(v),
{
    if v >= 0 {
        v / 2
    } else {
        -((-(v as i64)) / 2) as i32
    }
}

/// The pixels rendered so far for a `width` by `height` picture.
#[derive(Debug)]
pub struct PixelCanvas {
    width: u32,
    height: u32,
    buf: Vec<Pixel>,
}

impl PixelCanvas {
    /// The canvas width.
    pub closed spec fn spec_width(&self) -> u32 {
        self.width
    }

    /// The canvas height.
    pub closed spec fn spec_height(&self) -> u32 {
        self.height
    }

    /// The pixels, in the order they arrived.
    pub closed spec fn pixels(&self) -> Seq<Pixel> {
        self.buf@
    }

    /// An empty `width` by `height` canvas.
    pub fn new(width: u32, height: u32) -> (r: Self)
        ensures
            r.spec_width() == width,
            r.spec_height() == height,
            r.pixels() == Seq::<Pixel>::empty(),
    {
        PixelCanvas { width, height, buf: Vec::new() }
    }

    /// The canvas size.
    pub fn get_size(&self) -> (r: (u32, u32))
        ensures
            r == (self.spec_width(), self.spec_height()),
    {
        (self.width, self.height)
    }

    /// The pixels, in the order they arrived.
    pub fn buf(&self) -> (r: &Vec<Pixel>)
        ensures
            r@ == self.pixels(),
    {
        &self.buf
    }

    /// Adds the pixels that arrived, in order.
    pub fn receive_into_buf(&mut self, pixels: Vec<Pixel>)
        ensures
            final(self).pixels() == old(self).pixels() + pixels@,
            final(self).spec_width() == old(self).spec_width(),
            final(self).spec_height() == old(self).spec_height(),
    {
        let mut pixels = pixels;
        self.buf.append(&mut pixels);
    }

    /// Moves the picture by a mouse drag of `offset`: each pixel moves with the drag, and the
    /// pixels that leave the canvas are dropped. Returns the offset by which the fractal's view
    /// moves, the drag reversed.
    pub fn apply_offset(&mut self, offset: (i32, i32)) -> (r: (i32, i32))
        requires
            i32::MIN < offset.0,
            i32::MIN < offset.1,
            forall|k: int|
                0 <= k < old(self).pixels().len() ==> {
                    &&& i32::MIN <= (#[trigger] old(self).pixels()[k]).x as i32 + offset.0 <= i32::MAX
                    &&& i32::MIN <= old(self).pixels()[k].y as i32 + offset.1 <= i32::MAX
                },
        ensures
            r.0 == -offset.0,
            r.1 == -offset.1,
            final(self).spec_width() == old(self).spec_width(),
            final(self).spec_height() == old(self).spec_height(),
            final(self).pixels() == filter_map_pixels(
                old(self).pixels(),
                |p: Pixel| offset_pixel(p, r.0, r.1, old(self).spec_width(), old(self).spec_height()),
            ),
            final(self).pixels() == panned_pixels(old(self).pixels(), r.0, r.1, old(self).spec_width(), old(self).spec_height()),
    {
        let dx = -offset.0;
        let dy = -offset.1;
        let w = self.width;
        let h = self.height;
        let ghost f = |p: Pixel| offset_pixel(p, dx, dy, w, h);
        assert forall|k: int| 0 <= k < self.buf@.len() implies {
            &&& i32::MIN <= (#[trigger] self.buf@[k]).x as i32 + offset.0 <= i32::MAX
            &&& i32::MIN <= self.buf@[k].y as i32 + offset.1 <= i32::MAX
        } by {
            assert(self.buf@[k] == old(self).pixels()[k]);
        }
        let mut out: Vec<Pixel> = Vec::new();
        let n = self.buf.len();
        let mut i: usize = 0;
        while i < n
            invariant
                n == self.buf@.len(),
                self.buf@ == old(self).pixels(),
                w == old(self).spec_width(),
                h == old(self).spec_height(),
                dx == -offset.0,
                dy == -offset.1,
                f == (|p: Pixel| offset_pixel(p, dx, dy, w, h)),
                forall|k: int|
                    0 <= k < self.buf@.len() ==> {
                        &&& i32::MIN <= (#[trigger] self.buf@[k]).x as i32 + offset.0 <= i32::MAX
                        &&& i32::MIN <= self.buf@[k].y as i32 + offset.1 <= i32::MAX
                    },
                i <= n,
                out@ == filter_map_pixels(self.buf@.take(i as int), f),
            decreases n - i,
        {
            let p = self.buf[i];
            let x = p.x as i32 - dx;
            let y = p.y as i32 - dy;
            proof {
                lemma_filter_map_step(self.buf@, f, i as int);
            }
            if 0 <= x && x < w as i32 && 0 <= y && y < h as i32 {
                out.push(Pixel { x: x as u32, y: y as u32, ..p });
            }
            i = i + 1;
        }
        proof {
            assert(self.buf@.take(n as int) =~= self.buf@);
        }
        self.buf = out;
        (dx, dy)
    }

    /// Resizes the canvas to `size`, keeping the middles together: each pixel keeps its
    /// distance from the middle, and the pixels that leave the canvas are dropped.
    pub fn apply_resize(&mut self, size: (u32, u32))
        requires
            forall|k: int|
                0 <= k < old(self).pixels().len() ==> {
                    let p = #[trigger] old(self).pixels()[k];
                    &&& i32::MIN <= p.x as i32 - half_trunc(old(self).spec_width() as i32) <= i32::MAX
                    &&& i32::MIN <= p.y as i32 - half_trunc(old(self).spec_height() as i32) <= i32::MAX
                    &&& i32::MIN <= half_trunc(size.0 as i32) + (p.x as i32 - half_trunc(
                        old(self).spec_width() as i32,
                    )) <= i32::MAX
                    &&& i32::MIN <= half_trunc(size.1 as i32) + (p.y as i32 - half_trunc(
                        old(self).spec_height() as i32,
                    )) <= i32::MAX
                },
        ensures
            final(self).spec_width() == size.0,
            final(self).spec_height() == size.1,
            final(self).pixels() == filter_map_pixels(
                old(self).pixels(),
                |p: Pixel| resized_pixel(p, old(self).spec_width(), old(self).spec_height(), size.0, size.1),
            ),
    {
        let w = self.width;
        let h = self.height;
        let (nw, nh) = size;
        let old_mid_x = div2(w as i32);
        let old_mid_y = div2(h as i32);
        let new_mid_x = div2(nw as i32);
        let new_mid_y = div2(nh as i32);
        let ghost f = |p: Pixel| resized_pixel(p, w, h, nw, nh);
        assert(size.0 == nw && size.1 == nh);
        assert forall|k: int| 0 <= k < self.buf@.len() implies {
            let p = #[trigger] self.buf@[k];
            &&& i32::MIN <= p.x as i32 - half_trunc(w as i32) <= i32::MAX
            &&& i32::MIN <= p.y as i32 - half_trunc(h as i32) <= i32::MAX
            &&& i32::MIN <= half_trunc(nw as i32) + (p.x as i32 - half_trunc(w as i32)) <= i32::MAX
            &&& i32::MIN <= half_trunc(nh as i32) + (p.y as i32 - half_trunc(h as i32)) <= i32::MAX
        } by {
            assert(self.buf@[k] == old(self).pixels()[k]);
        }
        let mut out: Vec<Pixel> = Vec::new();
        let n = self.buf.len();
        let mut i: usize = 0;
        while i < n
            invariant
                n == self.buf@.len(),
                self.buf@ == old(self).pixels(),
                w == old(self).spec_width(),
                h == old(self).spec_height(),
                size == (nw, nh),
                old_mid_x == half_trunc(w as i32),
                old_mid_y == half_trunc(h as i32),
                new_mid_x == half_trunc(nw as i32),
                new_mid_y == half_trunc(nh as i32),
                f == (|p: Pixel| resized_pixel(p, w, h, nw, nh)),
                forall|k: int|
                    0 <= k < self.buf@.len() ==> {
                        let p = #[trigger] self.buf@[k];
                        &&& i32::MIN <= p.x as i32 - half_trunc(w as i32) <= i32::MAX
                        &&& i32::MIN <= p.y as i32 - half_trunc(h as i32) <= i32::MAX
                        &&& i32::MIN <= half_trunc(nw as i32) + (p.x as i32 - half_trunc(w as i32)) <= i32::MAX
                        &&& i32::MIN <= half_trunc(nh as i32) + (p.y as i32 - half_trunc(h as i32)) <= i32::MAX
                    },
                i <= n,
                out@ == filter_map_pixels(self.buf@.take(i as int), f),
            decreases n - i,
        {
            let p = self.buf[i];
            let x = new_mid_x + (p.x as i32 - old_mid_x);
            let y = new_mid_y + (p.y as i32 - old_mid_y);
            proof {
                lemma_filter_map_step(self.buf@, f, i as int);
            }
            if 0 <= x && x < nw as i32 && 0 <= y && y < nh as i32 {
                out.push(Pixel { x: x as u32, y: y as u32, ..p });
            }
            i = i + 1;
        }
        proof {
            assert(self.buf@.take(n as int) =~= self.buf@);
        }
        self.buf = out;
        self.width = nw;
        self.height = nh;
    }

    /// Rearranges the pixels after a zoom: `positions[k]` is where pixel `k` lands; the pixels
    /// that land outside the canvas are dropped.
    pub fn apply_zoom_positions(&mut self, positions: &Vec<(i32, i32)>)
        requires
            positions@.len() == old(self).pixels().len(),
        ensures
            final(self).spec_width() == old(self).spec_width(),
            final(self).spec_height() == old(self).spec_height(),
            final(self).pixels() == placed_all(
                old(self).pixels(),
                positions@,
                old(self).spec_width(),
                old(self).spec_height(),
            ),
    {
        let w = self.width;
        let h = self.height;
        let mut out: Vec<Pixel> = Vec::new();
        let n = self.buf.len();
        let mut i: usize = 0;
        while i < n
            invariant
                n == self.buf@.len(),
                n == positions@.len(),
                self.buf@ == old(self).pixels(),
                w == old(self).spec_width(),
                h == old(self).spec_height(),
                i <= n,
                out@ == placed_all(self.buf@.take(i as int), positions@.take(i as int), w, h),
            decreases n - i,
        {
            let p = self.buf[i];
            let (x, y) = positions[i];
            proof {
                assert(self.buf@.take(i + 1).drop_last() =~= self.buf@.take(i as int));
                assert(positions@.take(i + 1).drop_last() =~= positions@.take(i as int));
            }
            if 0 <= x && x < w as i32 && 0 <= y && y < h as i32 {
                out.push(Pixel { x: x as u32, y: y as u32, ..p });
            }
            i = i + 1;
        }
        proof {
            assert(self.buf@.take(n as int) =~= self.buf@);
            assert(positions@.take(n as int) =~= positions@);
        }
        self.buf = out;
    }

    /// Draws the canvas onto a `screen_width` by `screen_height` screen of packed RGBA pixels:
    /// every whole pixel of the buffer gets the background first, then each pixel of the canvas,
    /// in order, is drawn at its position moved by `(dx, dy)` where that lies on the screen, so
    /// a later pixel covers an earlier one at the same place.
    pub fn draw_full_buffer_with_offset(
        &self,
        dx: i32,
        dy: i32,
        screen: &mut [u8],
        screen_width: u32,
        screen_height: u32,
    )
        requires
            screen_width * screen_height * 4 <= old(screen)@.len(),
            forall|k: int|
                0 <= k < self.pixels().len() ==> {
                    &&& i32::MIN <= (#[trigger] self.pixels()[k]).x as i32 + dx <= i32::MAX
                    &&& i32::MIN <= self.pixels()[k].y as i32 + dy <= i32::MAX
                },
        ensures
            final(screen)@.len() == old(screen)@.len(),
            forall|x: int, y: int, c: int|
                0 <= x < screen_width && 0 <= y < screen_height && 0 <= c < 4 ==> #[trigger] byte_at(
                    final(screen)@,
                    screen_width as int,
                    x,
                    y,
                    c,
                ) == match last_drawn_at(self.pixels(), dx, dy, screen_width, screen_height, x, y) {
                    Some(p) => pixel_rgba(p)[c],
                    None => canvas_background()[c],
                },
            forall|b: int|
                screen_width * screen_height * 4 <= b < old(screen)@.len() / 4 * 4 ==> #[trigger] final(screen)@[b]
                    == canvas_background()[b % 4],
            forall|b: int|
                old(screen)@.len() / 4 * 4 <= b < old(screen)@.len() ==> #[trigger] final(screen)@[b]
                    == old(screen)@[b],
    {
        let ghost s0 = screen@;
        let ghost sw = screen_width as int;
        let ghost sh = screen_height as int;
        let len: usize = screen.len();
        let n: usize = len / 4;
        proof {
            vstd::arithmetic::div_mod::lemma_fundamental_div_mod(len as int, 4);
        }
        let mut k: usize = 0;
        while k < n
            invariant
                screen@.len() == s0.len(),
                len == s0.len(),
                n == len / 4,
                n * 4 <= len,
                k <= n,
                forall|b: int| 0 <= b < k * 4 ==> #[trigger] screen@[b] == canvas_background()[b % 4],
                forall|b: int| k * 4 <= b < len ==> #[trigger] screen@[b] == s0[b],
            decreases n - k,
        {
            let start = k * 4;
            screen[start] = 0x50;
            screen[start + 1] = 0x00;
            screen[start + 2] = 0x00;
            screen[start + 3] = 0xff;
            proof {
                assert forall|b: int| 0 <= b < (k + 1) * 4 implies #[trigger] screen@[b]
                    == canvas_background()[b % 4] by {
                    if b >= start {
                        vstd::arithmetic::div_mod::lemma_fundamental_div_mod_converse(b, 4, k as int, b - start);
                    }
                }
            }
            k = k + 1;
        }
        let ghost s1 = screen@;
        proof {
            assert forall|x: int, y: int, c: int|
                0 <= x < sw && 0 <= y < sh && 0 <= c < 4 implies #[trigger] byte_at(s1, sw, x, y, c)
                    == canvas_background()[c] by {
                lemma_pixel_bytes_bound(sw, sh, x, y);
                vstd::arithmetic::div_mod::lemma_fundamental_div_mod_converse((y * sw + x) * 4 + c, 4, y * sw + x, c);
            }
        }
        let m = self.buf.len();
        let mut i: usize = 0;
        while i < m
            invariant
                m == self.buf@.len(),
                i <= m,
                screen@.len() == s0.len(),
                sw == screen_width,
                sh == screen_height,
                sw * sh * 4 <= s0.len(),
                forall|kk: int|
                    0 <= kk < self.pixels().len() ==> {
                        &&& i32::MIN <= (#[trigger] self.pixels()[kk]).x as i32 + dx <= i32::MAX
                        &&& i32::MIN <= self.pixels()[kk].y as i32 + dy <= i32::MAX
                    },
                forall|x: int, y: int, c: int|
                    0 <= x < sw && 0 <= y < sh && 0 <= c < 4 ==> #[trigger] byte_at(screen@, sw, x, y, c)
                        == match last_drawn_at(self.buf@.take(i as int), dx, dy, screen_width, screen_height, x, y) {
                        Some(p) => pixel_rgba(p)[c],
                        None => canvas_background()[c],
                    },
                forall|b: int| sw * sh * 4 <= b < s0.len() ==> #[trigger] screen@[b] == s1[b],
            decreases m - i,
        {
            let p = self.buf[i];
            assert(p == self.pixels()[i as int]);
            let x = p.x as i32 + dx;
            let y = p.y as i32 + dy;
            let ghost before = screen@;
            proof {
                assert(self.buf@.take(i + 1).drop_last() =~= self.buf@.take(i as int));
                assert(self.buf@.take(i + 1).last() == p);
            }
            if 0 <= x && x < screen_width as i32 && 0 <= y && y < screen_height as i32 {
                proof {
                    crate::cell_grid::lemma_i32_cast(screen_width);
                    crate::cell_grid::lemma_i32_cast(screen_height);
                }
                let rgba: [u8; 4] = [p.r, p.g, p.b, 0xff];
                put_pixel_rgba(screen, screen_width, screen_height, x as u32, y as u32, rgba);
                proof {
                    assert(rgba@ =~= pixel_rgba(p));
                    lemma_pixel_write(before, screen@, sw, sh, x as int, y as int, rgba@);
                }
            }
            i = i + 1;
        }
        proof {
            assert(self.buf@.take(m as int) =~= self.buf@);
        }
    }
}

/// Panning back returns a pixel to its place: a pixel on the canvas that stays on it when the
/// picture moves by `(-dx, -dy)` comes back to where it was when the picture moves by
/// `(dx, dy)`.
pub proof fn lemma_offset_round_trip(p: Pixel, dx: i32, dy: i32, w: u32, h: u32)
    requires
        p.x < w as i32,
        p.y < h as i32,
        i32::MIN < dx,
        i32::MIN < dy,
        i32::MIN <= p.x as i32 - dx <= i32::MAX,
        i32::MIN <= p.y as i32 - dy <= i32::MAX,
        offset_pixel(p, dx, dy, w, h) is Some,
    ensures
        offset_pixel(offset_pixel(p, dx, dy, w, h).unwrap(), (-dx) as i32, (-dy) as i32, w, h) == Some(p),
{
    let q = offset_pixel(p, dx, dy, w, h).unwrap();
    assert(q.x as i32 - (-dx) == p.x);
    assert(q.y as i32 - (-dy) == p.y);
}

/// The pixels of `s` after the picture moved by `(-dx, -dy)` on a `w` by `h` canvas, as
/// [`PixelCanvas::apply_offset`] leaves them.
pub open spec fn panned_pixels(s: Seq<Pixel>, dx: i32, dy: i32, w: u32, h: u32) -> Seq<Pixel> {
    filter_map_pixels(s, |p: Pixel| offset_pixel(p, dx, dy, w, h))
}

/// After a pan every pixel lies on the canvas, and each is a pixel of the canvas before, same
/// colour, moved by `(-dx, -dy)`; and every pixel that lands on the canvas is kept.
pub proof fn lemma_pan_keeps_pixels_on_canvas(s: Seq<Pixel>, dx: i32, dy: i32, w: u32, h: u32)
    ensures
        forall|i: int|
            0 <= i < panned_pixels(s, dx, dy, w, h).len() ==> {
                let q = #[trigger] panned_pixels(s, dx, dy, w, h)[i];
                &&& q.x < w
                &&& q.y < h
                &&& exists|j: int|
                    0 <= j < s.len() && q.x == s[j].x as i32 - dx && q.y == s[j].y as i32 - dy && q.r == s[j].r
                        && q.g == s[j].g && q.b == s[j].b
            },
        forall|j: int|
            0 <= j < s.len() && 0 <= #[trigger] s[j].x as i32 - dx < w as i32 && 0 <= s[j].y as i32 - dy
                < h as i32 ==> panned_pixels(s, dx, dy, w, h).contains(
                Pixel { x: (s[j].x as i32 - dx) as u32, y: (s[j].y as i32 - dy) as u32, ..s[j] },
            ),
    decreases s.len(),
{
    if s.len() > 0 {
        let t = s.drop_last();
        lemma_pan_keeps_pixels_on_canvas(t, dx, dy, w, h);
        let r = panned_pixels(s, dx, dy, w, h);
        let rt = panned_pixels(t, dx, dy, w, h);
        assert forall|i: int| 0 <= i < r.len() implies {
            let q = #[trigger] r[i];
            &&& q.x < w
            &&& q.y < h
            &&& exists|j: int|
                0 <= j < s.len() && q.x == s[j].x as i32 - dx && q.y == s[j].y as i32 - dy && q.r == s[j].r
                    && q.g == s[j].g && q.b == s[j].b
        } by {
            if i < rt.len() {
                assert(r[i] == rt[i]);
                let q = r[i];
                assert(q == rt[i]);
                let j = choose|j: int|
                    0 <= j < t.len() && q.x == t[j].x as i32 - dx && q.y == t[j].y as i32 - dy && q.r == t[j].r
                        && q.g == t[j].g && q.b == t[j].b;
                assert(t[j] == s[j]);
            } else {
                let j = s.len() - 1;
                assert(s[j] == s.last());
            }
        }
        assert forall|j: int|
            0 <= j < s.len() && 0 <= #[trigger] s[j].x as i32 - dx < w as i32 && 0 <= s[j].y as i32 - dy
                < h as i32 implies r.contains(
            Pixel { x: (s[j].x as i32 - dx) as u32, y: (s[j].y as i32 - dy) as u32, ..s[j] },
        ) by {
            let m = Pixel { x: (s[j].x as i32 - dx) as u32, y: (s[j].y as i32 - dy) as u32, ..s[j] };
            if j < t.len() {
                assert(t[j] == s[j]);
                assert(rt.contains(m));
                let k = choose|k: int| 0 <= k < rt.len() && rt[k] == m;
                assert(r[k] == m);
            } else {
                assert(s[j] == s.last());
                assert(r[r.len() - 1] == m);
            }
        }
    }
}

/// Drawing with an offset puts a pixel at its position moved by the offset: the last pixel of
/// the canvas shows at `(x + dx, y + dy)` when that is on the screen, and whatever pixel shows
/// at a screen position is a pixel of the canvas whose position moved by the offset is that
/// one.
pub proof fn lemma_drawn_where_moved(s: Seq<Pixel>, dx: i32, dy: i32, sw: u32, sh: u32, x: int, y: int)
    ensures
        s.len() > 0 && x == s.last().x as i32 + dx && y == s.last().y as i32 + dy && 0 <= x < sw as i32 && 0 <= y
            < sh as i32 ==> last_drawn_at(s, dx, dy, sw, sh, x, y) == Some(s.last()),
        last_drawn_at(s, dx, dy, sw, sh, x, y) matches Some(q) ==> {
            &&& q.x as i32 + dx == x
            &&& q.y as i32 + dy == y
            &&& 0 <= x < sw as i32
            &&& 0 <= y < sh as i32
            &&& s.contains(q)
        },
    decreases s.len(),
{
    if s.len() > 0 {
        lemma_drawn_where_moved(s.drop_last(), dx, dy, sw, sh, x, y);
        if let Some(q) = last_drawn_at(s.drop_last(), dx, dy, sw, sh, x, y) {
            let j = choose|j: int| 0 <= j < s.drop_last().len() && s.drop_last()[j] == q;
            assert(s[j] == q);
        }
        assert(s[s.len() - 1] == s.last());
    }
}

} // verus!
