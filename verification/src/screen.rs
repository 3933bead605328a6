//! Packed RGBA screen buffers: four bytes per pixel, pixels in row-major order.
use vstd::prelude::*;

use image::{ImageBuffer, Pixel, Rgba};

use crate::index_math::{lemma_channel_injective, lemma_row_major_bounds, lemma_row_major_injective};

verus! {

/// Channel `c` of pixel `(x, y)` in a packed RGBA buffer whose rows are `w` pixels long.
pub open spec fn byte_at(s: Seq<u8>, w: int, x: int, y: int, c: int) -> u8 {
    s[(y * w + x) * 4 + c]
}

/// Whether pixel `(x, y)` of a `w` by `h` screen lies in the first `n` pixels of the buffer.
pub open spec fn pixel_in(w: int, h: int, n: int, x: int, y: int) -> bool {
    0 <= x < w && 0 <= y < h && y * w + x < n
}

/// The colour of the checkerboard background at `(x, y)`: squares of ten pixels.
pub open spec fn checker_rgba(x: int, y: int) -> Seq<u8> {
    if (x / 10) % 2 == (y / 10) % 2 {
        seq![0x99u8, 0x99u8, 0x99u8, 0xffu8]
    } else {
        seq![0x66u8, 0x66u8, 0x66u8, 0xffu8]
    }
}

/// The mean of two channel values, each halved first.
pub open spec fn blend_channel_spec(a: u8, b: u8) -> u8 {
    (a / 2 + b / 2) as u8
}

/// The mean of two channel values, each halved first.
pub fn blend_channel(a: u8, b: u8) -> (r: u8)
    ensures
        r == blend_channel_spec(a, b),
{
    a / 2 + b / 2
}

/// Distinct pixels, or distinct channels of one pixel, occupy distinct bytes.
pub proof fn lemma_bytes_distinct(w: int, x1: int, y1: int, c1: int, x2: int, y2: int, c2: int)
    requires
        0 <= x1 < w,
        0 <= x2 < w,
        0 <= y1,
        0 <= y2,
        0 <= c1 < 4,
        0 <= c2 < 4,
        (y1 * w + x1) * 4 + c1 == (y2 * w + x2) * 4 + c2,
    ensures
        x1 == x2,
        y1 == y2,
        c1 == c2,
{
    lemma_channel_injective(y1 * w + x1, c1, y2 * w + x2, c2);
    lemma_row_major_injective(x1, y1, x2, y2, w);
}

/// The first byte of pixel `(x, y)` and the byte after its last are inside a buffer of
/// `w * h` pixels.
pub proof fn lemma_pixel_bytes_bound(w: int, h: int, x: int, y: int)
    requires
        0 <= x < w,
        0 <= y < h,
    ensures
        0 <= (y * w + x) * 4,
        (y * w + x) * 4 + 4 <= w * h * 4,
{
    lemma_row_major_bounds(x, y, w, h);
    assert((y * w + x) * 4 + 4 <= w * h * 4) by (nonlinear_arith)
        requires
            y * w + x + 1 <= w * h,
    ;
}

/// After the four bytes of pixel `(x0, y0)` of a `w` by `h` screen were replaced by `vals`,
/// every other pixel, and every byte after the screen, keeps its value.
pub proof fn lemma_pixel_write(before: Seq<u8>, after: Seq<u8>, w: int, h: int, x0: int, y0: int, vals: Seq<u8>)
    requires
        after.len() == before.len(),
        w * h * 4 <= before.len(),
        0 <= x0 < w,
        0 <= y0 < h,
        vals.len() == 4,
        forall|b: int|
            0 <= b < before.len() ==> #[trigger] after[b] == {
                let start = (y0 * w + x0) * 4;
                if start <= b < start + 4 {
                    vals[b - start]
                } else {
                    before[b]
                }
            },
    ensures
        forall|x: int, y: int, c: int|
            0 <= x < w && 0 <= y < h && 0 <= c < 4 ==> #[trigger] byte_at(after, w, x, y, c) == (if x
                == x0 && y == y0 {
                vals[c]
            } else {
                byte_at(before, w, x, y, c)
            }),
        forall|b: int| w * h * 4 <= b < before.len() ==> #[trigger] after[b] == before[b],
{
    lemma_pixel_bytes_bound(w, h, x0, y0);
    assert forall|x: int, y: int, c: int| 0 <= x < w && 0 <= y < h && 0 <= c < 4 implies #[trigger] byte_at(
        after,
        w,
        x,
        y,
        c,
    ) == (if x == x0 && y == y0 {
        vals[c]
    } else {
        byte_at(before, w, x, y, c)
    }) by {
        lemma_pixel_bytes_bound(w, h, x, y);
        let b = (y * w + x) * 4 + c;
        let start = (y0 * w + x0) * 4;
        if start <= b < start + 4 {
            lemma_bytes_distinct(w, x, y, c, x0, y0, b - start);
        }
    }
}

/// `image::ImageBuffer::<Rgba<u8>, &mut [u8]>::from_raw` over `screen`, then `put_pixel`:
/// the four bytes of pixel `(x, y)` become `rgba`, and no other byte changes. The image
/// crate lays the buffer out in row-major order with packed samples, four per RGBA pixel;
/// `from_raw` accepts a buffer of at least `width * height * 4` bytes, and `put_pixel`
/// panics outside the bounds.
#[verifier::external_body]
pub(crate) fn put_pixel_rgba(screen: &mut [u8], width: u32, height: u32, x: u32, y: u32, rgba: [u8; 4])
    requires
        x < width,
        y < height,
        width * height * 4 <= old(screen)@.len(),
    ensures
        final(screen)@.len() == old(screen)@.len(),
        forall|b: int|
            0 <= b < old(screen)@.len() ==> #[trigger] final(screen)@[b] == {
                let start = (y * width + x) * 4;
                if start <= b < start + 4 {
                    rgba@[b - start]
                } else {
                    old(screen)@[b]
                }
            },
{
    let mut buf = ImageBuffer::<Rgba<u8>, &mut [u8]>::from_raw(width, height, screen).expect(
        "pixel buffer layout bad",
    );
    buf.put_pixel(x, y, Rgba(rgba));
}

/// `image::ImageBuffer::<Rgba<u8>, &mut [u8]>::from_raw` over `screen`, then `get_pixel_mut`
/// and `Pixel::apply2` with `blend_channel`: each of the four bytes of pixel `(x, y)` becomes
/// the blend of its old value with the matching channel of `rgba`, and no other byte changes.
/// `apply2` applies the function to the channels pairwise, in order.
#[verifier::external_body]
pub(crate) fn blend_pixel_rgba(screen: &mut [u8], width: u32, height: u32, x: u32, y: u32, rgba: [u8; 4])
    requires
        x < width,
        y < height,
        width * height * 4 <= old(screen)@.len(),
    ensures
        final(screen)@.len() == old(screen)@.len(),
        forall|b: int|
            0 <= b < old(screen)@.len() ==> #[trigger] final(screen)@[b] == {
                let start = (y * width + x) * 4;
                if start <= b < start + 4 {
                    blend_channel_spec(old(screen)@[b], rgba@[b - start])
                } else {
                    old(screen)@[b]
                }
            },
{
    let mut buf = ImageBuffer::<Rgba<u8>, &mut [u8]>::from_raw(width, height, screen).expect(
        "pixel buffer layout bad",
    );
    buf.get_pixel_mut(x, y).apply2(&Rgba(rgba), blend_channel);
}

/// Paints the checkerboard over the first `width * height` pixels of `screen`, row by row, as
/// far as the buffer holds whole pixels; the bytes after them keep their values.
pub fn fill_checkerboard(screen: &mut [u8], size: (u32, u32))
    ensures
        final(screen)@.len() == old(screen)@.len(),
        forall|x: int, y: int, c: int|
            pixel_in(size.0 as int, size.1 as int, (old(screen)@.len() / 4) as int, x, y) && 0 <= c
                < 4 ==> #[trigger] byte_at(final(screen)@, size.0 as int, x, y, c) == checker_rgba(
                x,
                y,
            )[c],
        forall|b: int|
            0 <= b < old(screen)@.len() && (b >= size.0 * size.1 * 4 || b >= old(screen)@.len() / 4
                * 4) ==> #[trigger] final(screen)@[b] == old(screen)@[b],
{
    let (width, height) = size;
    let len: usize = screen.len();
    let n: usize = len / 4;
    let ghost s0 = screen@;
    let ghost w = width as int;
    let ghost h = height as int;
    proof {
        assert(width as u64 * height as u64 <= u64::MAX) by (nonlinear_arith)
            requires
                width <= u32::MAX,
                height <= u32::MAX,
        ;
    }
    let total: u64 = width as u64 * height as u64;
    let m: usize = if total < n as u64 {
        total as usize
    } else {
        n
    };
    proof {
        vstd::arithmetic::div_mod::lemma_fundamental_div_mod(s0.len() as int, 4);
    }
    let mut k: usize = 0;
    while k < m
        invariant
            screen@.len() == s0.len(),
            n == s0.len() / 4,
            n * 4 <= s0.len(),
            s0.len() == len,
            w == width,
            h == height,
            m <= n,
            m <= w * h,
            m == n || m == w * h,
            k <= m,
            forall|px: int, py: int, c: int|
                pixel_in(w, h, n as int, px, py) && py * w + px < k && 0 <= c < 4
                    ==> #[trigger] byte_at(screen@, w, px, py, c) == checker_rgba(px, py)[c],
            forall|b: int| k * 4 <= b < s0.len() ==> #[trigger] screen@[b] == s0[b],
        decreases m - k,
    {
        proof {
            assert(w > 0) by (nonlinear_arith)
                requires
                    k < m,
                    m <= w * h,
                    w >= 0,
                    h >= 0,
            ;
        }
        let r: u64 = k as u64 % width as u64;
        let q: u64 = k as u64 / width as u64;
        proof {
            vstd::arithmetic::div_mod::lemma_fundamental_div_mod(k as int, w);
            assert(k == q * w + r) by (nonlinear_arith)
                requires
                    k as int == w * ((k as int) / w) + (k as int) % w,
                    r as int == (k as int) % w,
                    q as int == (k as int) / w,
            ;
            if q >= h {
                assert(q * w + r >= w * h) by (nonlinear_arith)
                    requires
                        q >= h,
                        w >= 0,
                        r >= 0,
                ;
            }
        }
        let x: u32 = r as u32;
        let y: u32 = q as u32;
        let light = (x / 10) % 2 == (y / 10) % 2;
        let color: [u8; 4] = if light {
            [0x99, 0x99, 0x99, 0xff]
        } else {
            [0x66, 0x66, 0x66, 0xff]
        };
        let ghost before = screen@;
        assert(k * 4 + 4 <= n * 4);
        let start = k * 4;
        screen[start] = color[0];
        screen[start + 1] = color[1];
        screen[start + 2] = color[2];
        screen[start + 3] = color[3];
        proof {
            assert(color@ =~= checker_rgba(x as int, y as int));
            assert forall|px: int, py: int, c: int|
                pixel_in(w, h, n as int, px, py) && py * w + px < k + 1 && 0 <= c < 4 implies
                #[trigger] byte_at(screen@, w, px, py, c) == checker_rgba(px, py)[c] by {
                if px == x && py == y {
                    assert(byte_at(screen@, w, px, py, c) == screen@[start + c]);
                } else {
                    lemma_row_major_bounds(px, py, w, h);
                    if py * w + px == k {
                        lemma_row_major_injective(px, py, x as int, y as int, w);
                    }
                    assert((py * w + px) * 4 + c < start) by (nonlinear_arith)
                        requires
                            py * w + px < k,
                            start == k * 4,
                            c < 4,
                    ;
                    assert(byte_at(screen@, w, px, py, c) == byte_at(before, w, px, py, c));
                }
            }
        }
        k = k + 1;
    }
    proof {
        assert forall|px: int, py: int, c: int|
            pixel_in(w, h, n as int, px, py) && 0 <= c < 4 implies #[trigger] byte_at(
            screen@,
            w,
            px,
            py,
            c,
        ) == checker_rgba(px, py)[c] by {
            lemma_row_major_bounds(px, py, w, h);
        }
    }
}

} // verus!
