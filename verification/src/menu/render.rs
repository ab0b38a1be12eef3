//! Software rendering into an ARGB8888 buffer (little-endian: blue,
//! green, red, alpha bytes per pixel).

use vstd::prelude::*;

verus! {

/// Byte `k` (0 = least significant) of `color`.
pub open spec fn color_byte(color: u32, k: int) -> u8 {
    if k == 0 {
        (color & 0xff) as u8
    } else if k == 1 {
        ((color >> 8u32) & 0xff) as u8
    } else if k == 2 {
        ((color >> 16u32) & 0xff) as u8
    } else {
        ((color >> 24u32) & 0xff) as u8
    }
}

/// The byte offset of pixel (`x`, `y`).
pub open spec fn px_off(stride: usize, x: int, y: int) -> int {
    y * stride + x * 4
}

/// The offset of an in-bounds pixel is representable.
pub open spec fn px_fits(stride: usize, x: int, y: int) -> bool {
    px_off(stride, x, y) + 4 <= usize::MAX
}

/// `color` stored in little-endian order at `off`.
pub open spec fn put_color(b: Seq<u8>, off: int, color: u32) -> Seq<u8> {
    b.update(off, color_byte(color, 0)).update(off + 1, color_byte(color, 1)).update(
        off + 2,
        color_byte(color, 2),
    ).update(off + 3, color_byte(color, 3))
}

/// Writing one pixel: nothing happens outside the `w` by `h` area or past
/// the end of the buffer.
pub open spec fn set_px(b: Seq<u8>, stride: usize, x: int, y: int, w: int, h: int, color: u32) -> Seq<u8> {
    if x < 0 || y < 0 || x >= w || y >= h {
        b
    } else if px_off(stride, x, y) + 4 > b.len() {
        b
    } else {
        put_color(b, px_off(stride, x, y), color)
    }
}

/// Pixels `x0 .. x` of row `y` written in order.
pub open spec fn fill_row(b: Seq<u8>, stride: usize, w: int, h: int, y: int, x0: int, x: int, color: u32) -> Seq<u8>
    decreases x - x0,
{
    if x <= x0 {
        b
    } else {
        set_px(fill_row(b, stride, w, h, y, x0, x - 1, color), stride, x - 1, y, w, h, color)
    }
}

/// Rows `y0 .. y` of columns `x0 .. x1` written in order.
pub open spec fn fill_rows(b: Seq<u8>, stride: usize, w: int, h: int, x0: int, x1: int, y0: int, y: int, color: u32) -> Seq<u8>
    decreases y - y0,
{
    if y <= y0 {
        b
    } else {
        fill_row(fill_rows(b, stride, w, h, x0, x1, y0, y - 1, color), stride, w, h, y - 1, x0, x1, color)
    }
}

/// The larger of two integers.
pub open spec fn imax(a: int, b: int) -> int {
    if a < b { b } else { a }
}

/// The smaller of two integers.
pub open spec fn imin(a: int, b: int) -> int {
    if a < b { a } else { b }
}

/// Every pixel of rows `y0 .. y1`, columns `x0 .. x1`, has a representable
/// offset.
pub open spec fn area_fits(stride: usize, x0: int, x1: int, y0: int, y1: int) -> bool {
    forall|x: int, y: int| x0 <= x < x1 && y0 <= y < y1 ==> #[trigger] px_fits(stride, x, y)
}

/// Stores one pixel if it lies in the `w` by `h` area and in the buffer.
pub fn argb_at(buf: &mut [u8], stride: usize, x: i32, y: i32, w: i32, h: i32, color: u32)
    requires
        0 <= x < w && 0 <= y < h ==> px_fits(stride, x as int, y as int),
    ensures
        final(buf)@ == set_px(old(buf)@, stride, x as int, y as int, w as int, h as int, color),
{
    if x < 0 || y < 0 || x >= w || y >= h {
        return;
    }
    let off = (y as usize) * stride + (x as usize) * 4;
    if off + 4 > buf.len() {
        return;
    }
    buf[off] = (color & 0xff) as u8;
    buf[off + 1] = ((color >> 8u32) & 0xff) as u8;
    buf[off + 2] = ((color >> 16u32) & 0xff) as u8;
    buf[off + 3] = ((color >> 24u32) & 0xff) as u8;
}

/// Fills the rectangle (`rx`, `ry`, `rw`, `rh`), clipped to the `w` by `h`
/// area, row by row.
pub fn fill_rect(buf: &mut [u8], stride: usize, w: i32, h: i32, rx: i32, ry: i32, rw: i32, rh: i32, color: u32)
    requires
        i32::MIN <= rx + rw <= i32::MAX,
        i32::MIN <= ry + rh <= i32::MAX,
        area_fits(stride, imax(rx as int, 0), imin(rx + rw, w as int), imax(ry as int, 0), imin(ry + rh, h as int)),
    ensures
        final(buf)@ == fill_rows(old(buf)@, stride, w as int, h as int, imax(rx as int, 0),
            imin(rx + rw, w as int), imax(ry as int, 0), imin(ry + rh, h as int), color),
{
    let x0 = if rx < 0 { 0 } else { rx };
    let y0 = if ry < 0 { 0 } else { ry };
    let x1 = if rx + rw < w { rx + rw } else { w };
    let y1 = if ry + rh < h { ry + rh } else { h };
    let ghost b0 = buf@;
    let mut y = y0;
    if y1 <= y0 {
        return;
    }
    while y < y1
        invariant
            y0 <= y <= y1,
            area_fits(stride, x0 as int, x1 as int, y0 as int, y1 as int),
            buf@ == fill_rows(b0, stride, w as int, h as int, x0 as int, x1 as int, y0 as int, y as int, color),
        decreases y1 - y,
    {
        let ghost row0 = buf@;
        let mut x = x0;
        if x0 < x1 {
            while x < x1
                invariant
                    x0 <= x <= x1,
                    y0 <= y < y1,
                    area_fits(stride, x0 as int, x1 as int, y0 as int, y1 as int),
                    buf@ == fill_row(row0, stride, w as int, h as int, y as int, x0 as int, x as int, color),
                decreases x1 - x,
            {
                assert(px_fits(stride, x as int, y as int));
                argb_at(buf, stride, x, y, w, h, color);
                x += 1;
            }
        }
        y += 1;
    }
}

/// Fills a rectangle of the `w` by `h` buffer.
pub fn paint_rect(buf: &mut [u8], stride: usize, w: i32, h: i32, x: i32, y: i32, rw: i32, rh: i32, color: u32)
    requires
        i32::MIN <= x + rw <= i32::MAX,
        i32::MIN <= y + rh <= i32::MAX,
        area_fits(stride, imax(x as int, 0), imin(x + rw, w as int), imax(y as int, 0), imin(y + rh, h as int)),
    ensures
        final(buf)@ == fill_rows(old(buf)@, stride, w as int, h as int, imax(x as int, 0),
            imin(x + rw, w as int), imax(y as int, 0), imin(y + rh, h as int), color),
{
    fill_rect(buf, stride, w, h, x, y, rw, rh, color);
}

/// Channel `k` (0 blue, 1 green, 2 red) of `color` blended over `dst`
/// with coverage `a` (0 to 255).
pub open spec fn mix(color: u32, k: int, a: int, dst: u8) -> u8 {
    ((color_byte(color, k) * a + dst * (255 - a)) / 255) as u8
}

/// Blending `color` into the pixel at `off` with coverage `a`; the pixel
/// becomes opaque.
pub open spec fn blend_px(b: Seq<u8>, off: int, a: int, color: u32) -> Seq<u8> {
    b.update(off, mix(color, 0, a, b[off])).update(off + 1, mix(color, 1, a, b[off + 1])).update(
        off + 2,
        mix(color, 2, a, b[off + 2]),
    ).update(off + 3, 0xffu8)
}

/// One glyph pixel: skipped when its coverage is zero, when it falls
/// outside the `bw` by `bh` area or past the end of the buffer.
pub open spec fn glyph_px(b: Seq<u8>, stride: usize, bw: int, bh: int, x: int, y: int, a: int, color: u32) -> Seq<u8> {
    if a == 0 || x < 0 || y < 0 || x >= bw || y >= bh {
        b
    } else if px_off(stride, x, y) + 4 > b.len() {
        b
    } else {
        blend_px(b, px_off(stride, x, y), a, color)
    }
}

/// Columns `0 .. gx` of glyph row `gy` blended in order.
pub open spec fn glyph_row(b: Seq<u8>, stride: usize, bw: int, bh: int, px: int, py: int, gw: int, bitmap: Seq<u8>, color: u32, gy: int, gx: int) -> Seq<u8>
    decreases gx,
{
    if gx <= 0 {
        b
    } else {
        glyph_px(glyph_row(b, stride, bw, bh, px, py, gw, bitmap, color, gy, gx - 1), stride, bw, bh,
            px + gx - 1, py + gy, bitmap[gy * gw + gx - 1] as int, color)
    }
}

/// Glyph rows `0 .. gy` blended in order.
pub open spec fn glyph_rows(b: Seq<u8>, stride: usize, bw: int, bh: int, px: int, py: int, gw: int, bitmap: Seq<u8>, color: u32, gy: int) -> Seq<u8>
    decreases gy,
{
    if gy <= 0 {
        b
    } else {
        glyph_row(glyph_rows(b, stride, bw, bh, px, py, gw, bitmap, color, gy - 1), stride, bw, bh, px, py,
            gw, bitmap, color, gy - 1, gw)
    }
}

/// The glyph pixels that are drawn have representable coordinates and
/// offsets.
pub open spec fn glyph_fits(stride: usize, px: int, py: int, gw: int, gh: int, bitmap: Seq<u8>) -> bool {
    forall|gx: int, gy: int|
        0 <= gx < gw && 0 <= gy < gh && #[trigger] bitmap[gy * gw + gx] != 0 ==> {
            &&& gx <= i32::MAX && gy <= i32::MAX
            &&& i32::MIN <= px + gx <= i32::MAX
            &&& i32::MIN <= py + gy <= i32::MAX
            &&& (0 <= px + gx && 0 <= py + gy ==> px_fits(stride, px + gx, py + gy))
        }
}

/// Blends a `gw` by `gh` coverage bitmap in `color` at (`px`, `py`).
pub fn blend_glyph(buf: &mut [u8], stride: usize, bw: i32, bh: i32, px: i32, py: i32, gw: usize, gh: usize, bitmap: &[u8], color: u32)
    requires
        gw * gh <= bitmap@.len(),
        glyph_fits(stride, px as int, py as int, gw as int, gh as int, bitmap@),
    ensures
        final(buf)@ == glyph_rows(old(buf)@, stride, bw as int, bh as int, px as int, py as int, gw as int,
            bitmap@, color, gh as int),
{
    let cr = ((color >> 16u32) & 0xff) as u32;
    let cg = ((color >> 8u32) & 0xff) as u32;
    let cb = (color & 0xff) as u32;
    assert(cr <= 255 && cg <= 255 && cb <= 255) by (bit_vector)
        requires
            cr == (color >> 16u32) & 0xff,
            cg == (color >> 8u32) & 0xff,
            cb == color & 0xff,
    ;
    let blen = bitmap.len();
    let ghost b0 = buf@;
    let mut gy: usize = 0;
    while gy < gh
        invariant
            gy <= gh,
            blen == bitmap@.len(),
            cr <= 255 && cg <= 255 && cb <= 255,
            gw * gh <= bitmap@.len(),
            glyph_fits(stride, px as int, py as int, gw as int, gh as int, bitmap@),
            cr == color_byte(color, 2),
            cg == color_byte(color, 1),
            cb == color_byte(color, 0),
            buf@ == glyph_rows(b0, stride, bw as int, bh as int, px as int, py as int, gw as int, bitmap@, color, gy as int),
        decreases gh - gy,
    {
        let ghost row0 = buf@;
        assert(gy * gw + gw <= gw * gh) by (nonlinear_arith)
            requires
                gy < gh,
        ;
        assert(gy * gw + gw <= blen);
        let mut gx: usize = 0;
        while gx < gw
            invariant
                gx <= gw,
                gy < gh,
                blen == bitmap@.len(),
                cr <= 255 && cg <= 255 && cb <= 255,
                gy * gw + gw <= blen,
                gy * gw + gw <= gw * gh,
                gw * gh <= bitmap@.len(),
                glyph_fits(stride, px as int, py as int, gw as int, gh as int, bitmap@),
                cr == color_byte(color, 2),
                cg == color_byte(color, 1),
                cb == color_byte(color, 0),
                buf@ == glyph_row(row0, stride, bw as int, bh as int, px as int, py as int, gw as int, bitmap@, color, gy as int, gx as int),
            decreases gw - gx,
        {
            let ghost before = buf@;
            let a = bitmap[gy * gw + gx] as u32;
            if a == 0 {
                gx += 1;
                continue;
            }
            assert(bitmap@[gy * gw + gx] != 0);
            let x = px + gx as i32;
            let y = py + gy as i32;
            if x < 0 || y < 0 || x >= bw || y >= bh {
                gx += 1;
                continue;
            }
            let off = (y as usize) * stride + (x as usize) * 4;
            if off + 4 > buf.len() {
                gx += 1;
                continue;
            }
            let dst_b = buf[off] as u32;
            let dst_g = buf[off + 1] as u32;
            let dst_r = buf[off + 2] as u32;
            let inv = 255 - a;
            assert(cb * a + dst_b * inv <= 255 * 255) by (nonlinear_arith)
                requires
                    cb <= 255,
                    a <= 255,
                    dst_b <= 255,
                    inv == 255 - a,
            ;
            assert(cg * a + dst_g * inv <= 255 * 255) by (nonlinear_arith)
                requires
                    cg <= 255,
                    a <= 255,
                    dst_g <= 255,
                    inv == 255 - a,
            ;
            assert(cr * a + dst_r * inv <= 255 * 255) by (nonlinear_arith)
                requires
                    cr <= 255,
                    a <= 255,
                    dst_r <= 255,
                    inv == 255 - a,
            ;
            let nb = (cb * a + dst_b * inv) / 255;
            let ng = (cg * a + dst_g * inv) / 255;
            let nr = (cr * a + dst_r * inv) / 255;
            buf[off] = nb as u8;
            buf[off + 1] = ng as u8;
            buf[off + 2] = nr as u8;
            buf[off + 3] = 0xff;
            assert(buf@ == blend_px(before, off as int, a as int, color));
            gx += 1;
        }
        gy += 1;
    }
}


/// Filling pixels `x0 .. x` of row `y` (inside the `w` by `h` area) colours
/// each of them that lies in the buffer and leaves every byte outside the
/// row's span as it was.
pub proof fn lemma_fill_row_pixels(b: Seq<u8>, stride: usize, w: int, h: int, y: int, x0: int, x: int, color: u32)
    requires
        0 <= x0 <= x <= w,
        0 <= y < h,
    ensures
        fill_row(b, stride, w, h, y, x0, x, color).len() == b.len(),
        forall|i: int| 0 <= i < b.len() && !(px_off(stride, x0, y) <= i < px_off(stride, x, y)) ==>
            #[trigger] fill_row(b, stride, w, h, y, x0, x, color)[i] == b[i],
        forall|xx: int, k: int| x0 <= xx < x && 0 <= k < 4 && px_off(stride, xx, y) + 4 <= b.len() ==>
            #[trigger] fill_row(b, stride, w, h, y, x0, x, color)[px_off(stride, xx, y) + k] == color_byte(color, k),
    decreases x - x0,
{
    if x > x0 {
        lemma_fill_row_pixels(b, stride, w, h, y, x0, x - 1, color);
    }
}

/// Filling rows `y0 .. y` of columns `x0 .. x1` (inside the `w` by `h`
/// area, rows not overlapping in the buffer) colours each pixel of the
/// rectangle that lies in the buffer: the rectangle ends up in `color`.
pub proof fn lemma_fill_rows_pixels(b: Seq<u8>, stride: usize, w: int, h: int, x0: int, x1: int, y0: int, y: int,
    color: u32)
    requires
        0 <= x0 <= x1 <= w,
        0 <= y0 <= y <= h,
        4 * w <= stride,
    ensures
        fill_rows(b, stride, w, h, x0, x1, y0, y, color).len() == b.len(),
        forall|xx: int, yy: int, k: int| x0 <= xx < x1 && y0 <= yy < y && 0 <= k < 4
            && px_off(stride, xx, yy) + 4 <= b.len() ==>
            #[trigger] fill_rows(b, stride, w, h, x0, x1, y0, y, color)[px_off(stride, xx, yy) + k] == color_byte(color, k),
    decreases y - y0,
{
    if y > y0 {
        let r0 = fill_rows(b, stride, w, h, x0, x1, y0, y - 1, color);
        lemma_fill_rows_pixels(b, stride, w, h, x0, x1, y0, y - 1, color);
        lemma_fill_row_pixels(r0, stride, w, h, y - 1, x0, x1, color);
        assert forall|xx: int, yy: int, k: int| x0 <= xx < x1 && y0 <= yy < y && 0 <= k < 4
            && px_off(stride, xx, yy) + 4 <= b.len() implies
            #[trigger] fill_rows(b, stride, w, h, x0, x1, y0, y, color)[px_off(stride, xx, yy) + k] == color_byte(color, k) by {
            if yy < y - 1 {
                let i = px_off(stride, xx, yy) + k;
                assert(yy * stride + stride <= (y - 1) * stride) by (nonlinear_arith)
                    requires yy < y - 1, stride >= 0;
                assert(i < px_off(stride, x0, y - 1));
                assert(fill_row(r0, stride, w, h, y - 1, x0, x1, color)[i] == r0[i]);
            }
        }
    }
}


/// Byte `k` of the pixel at `off` after blending `color` with coverage
/// `a` into the bytes `b`.
pub open spec fn blended(b: Seq<u8>, off: int, k: int, a: int, color: u32) -> u8 {
    if k < 3 { mix(color, k, a, b[off + k]) } else { 0xffu8 }
}

/// Pixel (`x`, `y`) of a glyph at (`px`, `py`) is drawn: it has coverage
/// `a`, lies in the `bw` by `bh` area and in a buffer of `len` bytes.
pub open spec fn glyph_drawn(stride: usize, len: int, bw: int, bh: int, x: int, y: int, a: int) -> bool {
    a != 0 && 0 <= x < bw && 0 <= y < bh && px_off(stride, x, y) + 4 <= len
}

/// Blending columns `0 .. gx` of glyph row `gy` blends each drawn pixel
/// once into the buffer as it was, and leaves every byte outside the
/// row's drawn span as it was.
pub proof fn lemma_glyph_row_pixels(b: Seq<u8>, stride: usize, bw: int, bh: int, px: int, py: int, gw: int,
    bitmap: Seq<u8>, color: u32, gy: int, gx: int)
    requires
        0 <= gx,
    ensures
        glyph_row(b, stride, bw, bh, px, py, gw, bitmap, color, gy, gx).len() == b.len(),
        forall|i: int| 0 <= i < b.len() && !(px_off(stride, imax(px, 0), py + gy) <= i
            < px_off(stride, imin(px + gx, bw), py + gy)) ==>
            #[trigger] glyph_row(b, stride, bw, bh, px, py, gw, bitmap, color, gy, gx)[i] == b[i],
        forall|x: int, k: int| px <= x < px + gx && 0 <= k < 4
            && glyph_drawn(stride, b.len() as int, bw, bh, x, py + gy, bitmap[gy * gw + (x - px)] as int) ==>
            #[trigger] glyph_row(b, stride, bw, bh, px, py, gw, bitmap, color, gy, gx)[px_off(stride, x, py + gy) + k]
                == blended(b, px_off(stride, x, py + gy), k, bitmap[gy * gw + (x - px)] as int, color),
    decreases gx,
{
    if gx > 0 {
        lemma_glyph_row_pixels(b, stride, bw, bh, px, py, gw, bitmap, color, gy, gx - 1);
    }
}

/// Blending glyph rows `0 .. gy` (rows not overlapping in the buffer)
/// blends each drawn pixel of the glyph once into the buffer as it was.
pub proof fn lemma_glyph_rows_pixels(b: Seq<u8>, stride: usize, bw: int, bh: int, px: int, py: int, gw: int,
    bitmap: Seq<u8>, color: u32, gy: int)
    requires
        0 <= gy,
        0 <= gw,
        0 <= bw,
        4 * bw <= stride,
    ensures
        glyph_rows(b, stride, bw, bh, px, py, gw, bitmap, color, gy).len() == b.len(),
        forall|i: int| 0 <= i < b.len() && !(px_off(stride, 0, py) <= i < px_off(stride, 0, py + gy)) ==>
            #[trigger] glyph_rows(b, stride, bw, bh, px, py, gw, bitmap, color, gy)[i] == b[i],
        forall|x: int, y: int, k: int| px <= x < px + gw && py <= y < py + gy && 0 <= k < 4
            && glyph_drawn(stride, b.len() as int, bw, bh, x, y, bitmap[(y - py) * gw + (x - px)] as int) ==>
            #[trigger] glyph_rows(b, stride, bw, bh, px, py, gw, bitmap, color, gy)[px_off(stride, x, y) + k]
                == blended(b, px_off(stride, x, y), k, bitmap[(y - py) * gw + (x - px)] as int, color),
    decreases gy,
{
    if gy > 0 {
        let r0 = glyph_rows(b, stride, bw, bh, px, py, gw, bitmap, color, gy - 1);
        let r = glyph_rows(b, stride, bw, bh, px, py, gw, bitmap, color, gy);
        lemma_glyph_rows_pixels(b, stride, bw, bh, px, py, gw, bitmap, color, gy - 1);
        lemma_glyph_row_pixels(r0, stride, bw, bh, px, py, gw, bitmap, color, gy - 1, gw);
        let y1 = py + gy - 1;
        assert(px_off(stride, 0, y1) <= px_off(stride, imax(px, 0), y1));
        assert(px_off(stride, imin(px + gw, bw), y1) <= px_off(stride, 0, y1 + 1)) by (nonlinear_arith)
            requires imin(px + gw, bw) <= bw, 4 * bw <= stride, px_off(stride, 0, y1 + 1) == (y1 + 1) * stride,
                px_off(stride, imin(px + gw, bw), y1) == y1 * stride + imin(px + gw, bw) * 4;
        assert forall|i: int| 0 <= i < b.len() && !(px_off(stride, 0, py) <= i < px_off(stride, 0, py + gy)) implies
            #[trigger] r[i] == b[i] by {
            assert(px_off(stride, 0, py + gy - 1) >= px_off(stride, 0, py)) by (nonlinear_arith)
                requires gy >= 1, stride >= 0, px_off(stride, 0, py + gy - 1) == (py + gy - 1) * stride,
                    px_off(stride, 0, py) == py * stride;
            assert(r == glyph_row(r0, stride, bw, bh, px, py, gw, bitmap, color, gy - 1, gw));
            assert(px_off(stride, 0, py + gy - 1) <= px_off(stride, 0, py + gy)) by (nonlinear_arith)
                requires stride >= 0, px_off(stride, 0, py + gy - 1) == (py + gy - 1) * stride,
                    px_off(stride, 0, py + gy) == (py + gy) * stride;
            assert(r0[i] == b[i]);
            assert(py + (gy - 1) == y1);
            assert(!(px_off(stride, imax(px, 0), py + (gy - 1)) <= i < px_off(stride, imin(px + gw, bw), py + (gy - 1))));
            assert(glyph_row(r0, stride, bw, bh, px, py, gw, bitmap, color, gy - 1, gw)[i] == r0[i]);
        }
        assert forall|x: int, y: int, k: int| px <= x < px + gw && py <= y < py + gy && 0 <= k < 4
            && glyph_drawn(stride, b.len() as int, bw, bh, x, y, bitmap[(y - py) * gw + (x - px)] as int) implies
            #[trigger] r[px_off(stride, x, y) + k]
                == blended(b, px_off(stride, x, y), k, bitmap[(y - py) * gw + (x - px)] as int, color) by {
            let off = px_off(stride, x, y);
            if y < y1 {
                assert(off + 4 <= px_off(stride, 0, y1)) by (nonlinear_arith)
                    requires y < y1, 0 <= x < bw, 4 * bw <= stride, off == y * stride + x * 4,
                        px_off(stride, 0, y1) == y1 * stride;
                assert(r[off + k] == r0[off + k]);
            } else {
                assert(y == y1);
                assert(gy - 1 == y - py);
                assert(off + 4 <= px_off(stride, 0, y1 + 1)) by (nonlinear_arith)
                    requires 0 <= x < bw, 4 * bw <= stride, off == y1 * stride + x * 4,
                        px_off(stride, 0, y1 + 1) == (y1 + 1) * stride;
                assert(off >= px_off(stride, 0, py + gy - 1));
                assert forall|j: int| 0 <= j < 3 implies #[trigger] r0[off + j] == b[off + j] by {
                    assert(off + j >= px_off(stride, 0, py + gy - 1));
                }
            }
        }
    }
}

} // verus!
