//! RGBA rasters and source-over alpha compositing, in exact integer
//! arithmetic over the byte samples.

use vstd::prelude::*;

verus! {

/// One RGBA sample.
#[derive(Clone, Copy, Debug, PartialEq, Eq, Structural)]
pub struct Pixel {
    pub r: u8,
    pub g: u8,
    pub b: u8,
    pub a: u8,
}

impl Pixel {
    pub fn new(r: u8, g: u8, b: u8, a: u8) -> (p: Pixel)
        ensures
            p == (Pixel { r, g, b, a }),
    {
        Pixel { r, g, b, a }
    }
}

/// The numerator of the source-over output alpha, over the denominator
/// `255 * 255`: `a_t + a_b * (1 - a_t)` with both alphas as fractions
/// of 255.
pub open spec fn alpha_out_num(ab: u8, at: u8) -> int {
    at * 255 + ab * (255 - at)
}

/// One source-over colour channel for `0 < a_t < 255`:
/// `(c_t * a_t + c_b * a_b * (1 - a_t)) / a_out`, scaled back to a byte
/// and truncated.
pub open spec fn spec_blend_channel(cb: u8, ct: u8, ab: u8, at: u8) -> u8 {
    ((ct * at * 255 + cb * ab * (255 - at)) / alpha_out_num(ab, at)) as u8
}

/// Source-over compositing of `top` on `bottom`: a fully transparent
/// top leaves the bottom, a fully opaque top replaces it, and anything
/// between mixes each channel by the alphas.
pub open spec fn spec_alpha_blend(bottom: Pixel, top: Pixel) -> Pixel {
    if top.a == 0 {
        bottom
    } else if top.a == 255 {
        top
    } else {
        Pixel {
            r: spec_blend_channel(bottom.r, top.r, bottom.a, top.a),
            g: spec_blend_channel(bottom.g, top.g, bottom.a, top.a),
            b: spec_blend_channel(bottom.b, top.b, bottom.a, top.a),
            a: (alpha_out_num(bottom.a, top.a) / 255) as u8,
        }
    }
}

/// A transparent top sample leaves the bottom sample unchanged.
pub proof fn lemma_blend_transparent(bottom: Pixel, top: Pixel)
    requires
        top.a == 0,
    ensures
        spec_alpha_blend(bottom, top) == bottom,
{
}

/// A fully opaque top sample replaces the bottom sample.
pub proof fn lemma_blend_opaque(bottom: Pixel, top: Pixel)
    requires
        top.a == 255,
    ensures
        spec_alpha_blend(bottom, top) == top,
{
}

proof fn lemma_half_channel_bounds(cb: u8, ct: u8)
    ensures
        spec_blend_channel(cb, ct, 255, 128) == (128 * ct + 127 * cb) / 255,
        ct >= cb + 2 ==> cb < (128 * ct + 127 * cb) / 255 < ct,
        cb >= ct + 3 ==> ct < (128 * ct + 127 * cb) / 255 < cb,
{
    let num = 128 * ct + 127 * cb;
    assert(ct * 128 * 255 + cb * 255 * 127 == 255 * num) by (nonlinear_arith)
        requires
            num == 128 * ct + 127 * cb,
    ;
    assert(alpha_out_num(255, 128) == 65025);
    assert((255 * num) / 65025 == num / 255) by {
        vstd::arithmetic::div_mod::lemma_div_denominator(255 * num, 255, 255);
    }
    vstd::arithmetic::div_mod::lemma_fundamental_div_mod(num, 255);
    let q = num / 255;
    let rem = num % 255;
    assert(num == 255 * q + rem);
    if ct >= cb + 2 {
        assert(num >= 255 * cb + 255);
        assert(num <= 255 * ct - 127);
        assert(q > cb);
        assert(q < ct);
    }
    if cb >= ct + 3 {
        assert(num >= 255 * ct + 127 * 3);
        assert(num <= 255 * cb - 128 * 3);
        assert(q > ct);
        assert(q < cb);
    }
}

/// A half-transparent top over an opaque bottom gives an opaque result,
/// and each channel lands strictly between the two inputs once they are
/// a few steps apart.
pub proof fn lemma_blend_half_over_opaque(bottom: Pixel, top: Pixel)
    requires
        top.a == 128,
        bottom.a == 255,
    ensures
        spec_alpha_blend(bottom, top).a == 255,
        top.r >= bottom.r + 2 ==> bottom.r < spec_alpha_blend(bottom, top).r < top.r,
        bottom.r >= top.r + 3 ==> top.r < spec_alpha_blend(bottom, top).r < bottom.r,
        top.g >= bottom.g + 2 ==> bottom.g < spec_alpha_blend(bottom, top).g < top.g,
        bottom.g >= top.g + 3 ==> top.g < spec_alpha_blend(bottom, top).g < bottom.g,
        top.b >= bottom.b + 2 ==> bottom.b < spec_alpha_blend(bottom, top).b < top.b,
        bottom.b >= top.b + 3 ==> top.b < spec_alpha_blend(bottom, top).b < bottom.b,
{
    lemma_half_channel_bounds(bottom.r, top.r);
    lemma_half_channel_bounds(bottom.g, top.g);
    lemma_half_channel_bounds(bottom.b, top.b);
    assert(alpha_out_num(255, 128) / 255 == 255);
}

fn blend_channel(cb: u8, ct: u8, ab: u8, at: u8) -> (r: u8)
    requires
        0 < at < 255,
    ensures
        r == spec_blend_channel(cb, ct, ab, at),
{
    let cbw = cb as u32;
    let ctw = ct as u32;
    let abw = ab as u32;
    let atw = at as u32;
    proof {
        assert(ctw * atw <= 255 * 255) by (nonlinear_arith)
            requires
                ctw <= 255,
                atw <= 255,
        ;
        assert(cbw * abw <= 255 * 255) by (nonlinear_arith)
            requires
                cbw <= 255,
                abw <= 255,
        ;
        assert(cbw * abw * (255 - atw) <= 255 * 255 * 255) by (nonlinear_arith)
            requires
                cbw * abw <= 255 * 255,
                atw >= 1,
        ;
        assert(abw * (255 - atw) <= 255 * 255) by (nonlinear_arith)
            requires
                abw <= 255,
                atw < 255,
        ;
    }
    let num = ctw * atw * 255 + cbw * abw * (255 - atw);
    let den = atw * 255 + abw * (255 - atw);
    assert(den >= 255);
    let q = num / den;
    proof {
        assert(num <= 255 * den) by (nonlinear_arith)
            requires
                ctw <= 255,
                cbw <= 255,
                num == ctw * atw * 255 + cbw * abw * (255 - atw),
                den == atw * 255 + abw * (255 - atw),
                atw < 255,
        ;
        assert(q <= 255) by {
            vstd::arithmetic::div_mod::lemma_div_is_ordered(num as int, 255 * den, den as int);
            vstd::arithmetic::div_mod::lemma_div_multiples_vanish(255, den as int);
        }
    }
    q as u8
}

/// Source-over compositing of two RGBA samples.
pub fn alpha_blend(bottom: Pixel, top: Pixel) -> (r: Pixel)
    ensures
        r == spec_alpha_blend(bottom, top),
{
    if top.a == 0 {
        return bottom;
    }
    if top.a == 255 {
        return top;
    }
    let ab = bottom.a as u32;
    let at = top.a as u32;
    proof {
        assert(ab * (255 - at) <= 255 * 255) by (nonlinear_arith)
            requires
                ab <= 255,
                at < 255,
        ;
    }
    let aon = at * 255 + ab * (255 - at);
    Pixel {
        r: blend_channel(bottom.r, top.r, bottom.a, top.a),
        g: blend_channel(bottom.g, top.g, bottom.a, top.a),
        b: blend_channel(bottom.b, top.b, bottom.a, top.a),
        a: (aon / 255) as u8,
    }
}

/// Mathematical image of a `Raster`.
pub struct RasterV {
    pub width: u32,
    pub height: u32,
    pub pixels: Seq<Pixel>,
}

/// A width x height RGBA image, pixels in row-major order.
#[derive(Debug, Clone)]
pub struct Raster {
    pub width: u32,
    pub height: u32,
    pub pixels: Vec<Pixel>,
}

impl View for Raster {
    type V = RasterV;

    open spec fn view(&self) -> RasterV {
        RasterV { width: self.width, height: self.height, pixels: self.pixels@ }
    }
}

/// Index of the sample at `(x, y)` in row-major order.
pub open spec fn pix_at(w: int, x: int, y: int) -> int {
    y * w + x
}

impl Raster {
    /// The pixel list covers the full grid.
    pub open spec fn wf(&self) -> bool {
        self.pixels@.len() == self.width * self.height
    }

    /// A solid raster of one sample.
    pub fn filled(width: u32, height: u32, p: Pixel) -> (r: Raster)
        requires
            width * height <= usize::MAX,
        ensures
            r.wf(),
            r.width == width,
            r.height == height,
            forall|i: int| 0 <= i < r@.pixels.len() ==> r@.pixels[i] == p,
    {
        let total: usize = (width as usize) * (height as usize);
        let mut pixels: Vec<Pixel> = Vec::new();
        let mut i: usize = 0;
        while i < total
            invariant
                i <= total,
                pixels@.len() == i,
                forall|j: int| 0 <= j < i ==> pixels@[j] == p,
            decreases total - i,
        {
            pixels.push(p);
            i = i + 1;
        }
        Raster { width, height, pixels }
    }

    pub fn get_pixel(&self, x: u32, y: u32) -> (p: Pixel)
        requires
            self.wf(),
            x < self.width,
            y < self.height,
        ensures
            p == self@.pixels[pix_at(self.width as int, x as int, y as int)],
    {
        let n = self.pixels.len();
        proof {
            assert(y * self.width + x < self.width * self.height) by (nonlinear_arith)
                requires
                    y < self.height,
                    x < self.width,
            ;
        }
        let idx: usize = (y as usize) * (self.width as usize) + (x as usize);
        self.pixels[idx]
    }

    pub fn put_pixel(&mut self, x: u32, y: u32, p: Pixel)
        requires
            old(self).wf(),
            x < old(self).width,
            y < old(self).height,
        ensures
            final(self).wf(),
            final(self).width == old(self).width,
            final(self).height == old(self).height,
            final(self)@.pixels == old(self)@.pixels.update(
                pix_at(old(self).width as int, x as int, y as int),
                p,
            ),
    {
        let n = self.pixels.len();
        proof {
            assert(y * self.width + x < self.width * self.height) by (nonlinear_arith)
                requires
                    y < self.height,
                    x < self.width,
            ;
        }
        let idx: usize = (y as usize) * (self.width as usize) + (x as usize);
        self.pixels.set(idx, p);
    }

    /// The samples flattened to RGBA bytes, for an encoder.
    pub fn rgba_bytes(&self) -> (r: Vec<u8>)
        requires
            self.wf(),
            self@.pixels.len() * 4 <= usize::MAX,
        ensures
            r@.len() == self@.pixels.len() * 4,
            forall|i: int|
                0 <= i < self@.pixels.len() ==> r@[4 * i] == self@.pixels[i].r && r@[4 * i + 1]
                    == self@.pixels[i].g && r@[4 * i + 2] == self@.pixels[i].b && r@[4 * i + 3]
                    == self@.pixels[i].a,
            r@ == spec_rgba_bytes(self@.pixels),
    {
        let mut out: Vec<u8> = Vec::new();
        let mut i: usize = 0;
        let n = self.pixels.len();
        while i < n
            invariant
                n == self@.pixels.len(),
                n * 4 <= usize::MAX,
                i <= n,
                out@.len() == 4 * i,
                forall|j: int|
                    0 <= j < i ==> out@[4 * j] == self@.pixels[j].r && out@[4 * j + 1]
                        == self@.pixels[j].g && out@[4 * j + 2] == self@.pixels[j].b && out@[4 * j
                        + 3] == self@.pixels[j].a,
            decreases n - i,
        {
            let p = self.pixels[i];
            out.push(p.r);
            out.push(p.g);
            out.push(p.b);
            out.push(p.a);
            i = i + 1;
        }
        proof {
            assert forall|k: int| 0 <= k < out@.len() implies out@[k] == spec_rgba_bytes(
                self@.pixels,
            )[k] by {
                let j = k / 4;
                assert(0 <= j < self@.pixels.len());
                assert(k == 4 * j + (k % 4));
                if k % 4 == 0 {
                    assert(out@[4 * j] == self@.pixels[j].r);
                } else if k % 4 == 1 {
                    assert(out@[4 * j + 1] == self@.pixels[j].g);
                } else if k % 4 == 2 {
                    assert(out@[4 * j + 2] == self@.pixels[j].b);
                } else {
                    assert(out@[4 * j + 3] == self@.pixels[j].a);
                }
            }
            assert(out@ =~= spec_rgba_bytes(self@.pixels));
        }
        out
    }

    /// Builds a raster from RGBA bytes, when their count covers the grid.
    pub fn from_rgba_bytes(width: u32, height: u32, data: &Vec<u8>) -> (r: Option<Raster>)
        ensures
            data@.len() == width * height * 4 ==> (r matches Some(img) && img.wf() && img.width
                == width && img.height == height && img@.pixels == spec_pixels_of(data@) && forall|
                i: int,
            |
                0 <= i < img@.pixels.len() ==> img@.pixels[i] == (Pixel {
                    r: data@[4 * i],
                    g: data@[4 * i + 1],
                    b: data@[4 * i + 2],
                    a: data@[4 * i + 3],
                })),
            data@.len() != width * height * 4 ==> r is None,
    {
        let dn = data.len();
        proof {
            assert((width as int) * (height as int) <= 0xffff_ffff * 0xffff_ffff)
                by (nonlinear_arith)
                requires
                    width <= 0xffff_ffffu32,
                    height <= 0xffff_ffffu32,
            ;
        }
        let total: u64 = (width as u64) * (height as u64);
        if total > (usize::MAX as u64) / 4 {
            proof {
                assert(width * height >= (usize::MAX as int) / 4 + 1);
                assert(width * height * 4 > usize::MAX);
            }
            return None;
        }
        let total_usize: usize = total as usize;
        if data.len() != total_usize * 4 {
            return None;
        }
        let mut pixels: Vec<Pixel> = Vec::new();
        let mut i: usize = 0;
        while i < total_usize
            invariant
                total_usize == width * height,
                data@.len() == total_usize * 4,
                data@.len() <= usize::MAX,
                i <= total_usize,
                pixels@.len() == i,
                forall|j: int|
                    0 <= j < i ==> pixels@[j] == (Pixel {
                        r: data@[4 * j],
                        g: data@[4 * j + 1],
                        b: data@[4 * j + 2],
                        a: data@[4 * j + 3],
                    }),
            decreases total_usize - i,
        {
            proof {
                assert(4 * i + 3 < data@.len());
            }
            let p = Pixel { r: data[4 * i], g: data[4 * i + 1], b: data[4 * i + 2], a: data[4 * i
                + 3] };
            pixels.push(p);
            i = i + 1;
        }
        proof {
            assert(pixels@ =~= spec_pixels_of(data@));
        }
        Some(Raster { width, height, pixels })
    }
}

/// The RGBA byte run of a pixel list, four bytes per sample.
pub open spec fn spec_rgba_bytes(pixels: Seq<Pixel>) -> Seq<u8> {
    Seq::new(
        pixels.len() * 4,
        |i: int|
            if i % 4 == 0 {
                pixels[i / 4].r
            } else if i % 4 == 1 {
                pixels[i / 4].g
            } else if i % 4 == 2 {
                pixels[i / 4].b
            } else {
                pixels[i / 4].a
            },
    )
}

/// The pixel list read out of an RGBA byte run.
pub open spec fn spec_pixels_of(bytes: Seq<u8>) -> Seq<Pixel> {
    Seq::new(
        bytes.len() / 4,
        |i: int|
            Pixel { r: bytes[4 * i], g: bytes[4 * i + 1], b: bytes[4 * i + 2], a: bytes[4 * i + 3] },
    )
}

/// The magenta half of the placeholder checkerboard.
pub open spec fn checker_magenta() -> Pixel {
    Pixel { r: 255, g: 0, b: 255, a: 255 }
}

/// The pink half of the placeholder checkerboard.
pub open spec fn checker_pink() -> Pixel {
    Pixel { r: 255, g: 105, b: 180, a: 255 }
}

/// The placeholder pattern: 8-pixel checker cells, magenta and pink.
pub open spec fn spec_checker_pixel(x: int, y: int) -> Pixel {
    if (x / 8 + y / 8) % 2 == 0 {
        checker_magenta()
    } else {
        checker_pink()
    }
}

/// The 32x32 checkerboard placeholder drawn for a missing sprite.
pub fn create_missing_sprite() -> (r: Raster)
    ensures
        r.wf(),
        r.width == 32,
        r.height == 32,
        forall|x: int, y: int|
            0 <= x < 32 && 0 <= y < 32 ==> r@.pixels[pix_at(32, x, y)] == spec_checker_pixel(x, y),
{
    let mut img = Raster::filled(32, 32, Pixel { r: 0, g: 0, b: 0, a: 0 });
    let mut y: u32 = 0;
    while y < 32
        invariant
            img.wf(),
            img.width == 32,
            img.height == 32,
            y <= 32,
            forall|xx: int, yy: int|
                0 <= xx < 32 && 0 <= yy < y ==> img@.pixels[pix_at(32, xx, yy)]
                    == spec_checker_pixel(xx, yy),
        decreases 32 - y,
    {
        let mut x: u32 = 0;
        while x < 32
            invariant
                img.wf(),
                img.width == 32,
                img.height == 32,
                y < 32,
                x <= 32,
                forall|xx: int, yy: int|
                    0 <= xx < 32 && 0 <= yy < y ==> img@.pixels[pix_at(32, xx, yy)]
                        == spec_checker_pixel(xx, yy),
                forall|xx: int|
                    0 <= xx < x ==> img@.pixels[pix_at(32, xx, y as int)] == spec_checker_pixel(
                        xx,
                        y as int,
                    ),
            decreases 32 - x,
        {
            let color = if (x / 8 + y / 8) % 2 == 0 {
                Pixel { r: 255, g: 0, b: 255, a: 255 }
            } else {
                Pixel { r: 255, g: 105, b: 180, a: 255 }
            };
            img.put_pixel(x, y, color);
            x = x + 1;
        }
        y = y + 1;
    }
    img
}

/// The sample `overlay` paints onto position `(x, y)` of a base raster,
/// under source-over compositing with the overlay anchored at
/// `(xo, yo)`: positions outside the overlay keep the base sample.
pub open spec fn spec_overlay_pixel(
    base: RasterV,
    overlay: RasterV,
    xo: int,
    yo: int,
    x: int,
    y: int,
) -> Pixel {
    let ox = x - xo;
    let oy = y - yo;
    if 0 <= ox < overlay.width && 0 <= oy < overlay.height {
        spec_alpha_blend(
            base.pixels[pix_at(base.width as int, x, y)],
            overlay.pixels[pix_at(overlay.width as int, ox, oy)],
        )
    } else {
        base.pixels[pix_at(base.width as int, x, y)]
    }
}

/// Source-over composites `overlay` onto `base` with its top-left
/// corner at `(x_off, y_off)`; parts outside `base` are clipped.
pub fn overlay_with_alpha(base: &mut Raster, overlay: &Raster, x_off: i32, y_off: i32)
    requires
        old(base).wf(),
        overlay.wf(),
    ensures
        final(base).wf(),
        final(base).width == old(base).width,
        final(base).height == old(base).height,
        forall|x: int, y: int|
            0 <= x < old(base).width && 0 <= y < old(base).height ==> final(base)@.pixels[pix_at(
                old(base).width as int,
                x,
                y,
            )] == spec_overlay_pixel(
                old(base)@,
                overlay@,
                x_off as int,
                y_off as int,
                x,
                y,
            ),
{
    let ghost base0 = old(base)@;
    let bw = base.width;
    let bh = base.height;
    let mut oy: u32 = 0;
    while oy < overlay.height
        invariant
            base.wf(),
            overlay.wf(),
            base.width == base0.width,
            base.height == base0.height,
            bw == base0.width,
            bh == base0.height,
            base0.pixels.len() == base0.width * base0.height,
            oy <= overlay.height,
            forall|x: int, y: int|
                0 <= x < base0.width && 0 <= y < base0.height ==> base@.pixels[pix_at(
                    base0.width as int,
                    x,
                    y,
                )] == (if 0 <= x - x_off < overlay.width && 0 <= y - y_off < oy {
                    spec_overlay_pixel(base0, overlay@, x_off as int, y_off as int, x, y)
                } else {
                    base0.pixels[pix_at(base0.width as int, x, y)]
                }),
        decreases overlay.height - oy,
    {
        let mut ox: u32 = 0;
        while ox < overlay.width
            invariant
                base.wf(),
                overlay.wf(),
                base.width == base0.width,
                base.height == base0.height,
                bw == base0.width,
                bh == base0.height,
                base0.pixels.len() == base0.width * base0.height,
                oy < overlay.height,
                ox <= overlay.width,
                forall|x: int, y: int|
                    0 <= x < base0.width && 0 <= y < base0.height ==> base@.pixels[pix_at(
                        base0.width as int,
                        x,
                        y,
                    )] == (if (0 <= x - x_off < overlay.width && 0 <= y - y_off < oy) || (y - y_off
                        == oy && 0 <= x - x_off < ox) {
                        spec_overlay_pixel(base0, overlay@, x_off as int, y_off as int, x, y)
                    } else {
                        base0.pixels[pix_at(base0.width as int, x, y)]
                    }),
            decreases overlay.width - ox,
        {
            let bx: i64 = (x_off as i64) + (ox as i64);
            let by: i64 = (y_off as i64) + (oy as i64);
            let ghost prev = base@;
            if bx >= 0 && bx < (bw as i64) && by >= 0 && by < (bh as i64) {
                let bxu = bx as u32;
                let byu = by as u32;
                let below = base.get_pixel(bxu, byu);
                let above = overlay.get_pixel(ox, oy);
                let blended = alpha_blend(below, above);
                proof {
                    assert(pix_at(base0.width as int, bxu as int, byu as int) < base0.pixels.len())
                        by (nonlinear_arith)
                        requires
                            bxu < base0.width,
                            byu < base0.height,
                            base0.pixels.len() == base0.width * base0.height,
                    ;
                    assert(base@.pixels[pix_at(base0.width as int, bxu as int, byu as int)]
                        == base0.pixels[pix_at(base0.width as int, bxu as int, byu as int)]);
                }
                base.put_pixel(bxu, byu, blended);
                proof {
                    lemma_update_distinct(base0, base@, bxu as int, byu as int);
                    let xo = x_off as int;
                    let yo = y_off as int;
                    let bxi = bxu as int;
                    let byi = byu as int;
                    assert(blended == spec_overlay_pixel(base0, overlay@, xo, yo, bxi, byi));
                    assert forall|x: int, y: int|
                        0 <= x < base0.width && 0 <= y < base0.height implies base@.pixels[pix_at(
                        base0.width as int,
                        x,
                        y,
                    )] == (if (0 <= x - xo < overlay@.width && 0 <= y - yo < oy as int) || (y - yo
                        == oy as int && 0 <= x - xo < ox + 1) {
                        spec_overlay_pixel(base0, overlay@, xo, yo, x, y)
                    } else {
                        base0.pixels[pix_at(base0.width as int, x, y)]
                    }) by {
                        if x == bxi && y == byi {
                        } else {
                            assert(0 <= pix_at(base0.width as int, x, y)
                                < base0.pixels.len()) by (nonlinear_arith)
                                requires
                                    0 <= x < base0.width,
                                    0 <= y < base0.height,
                                    base0.pixels.len() == base0.width * base0.height,
                            ;
                            assert(pix_at(base0.width as int, x, y) != pix_at(
                                base0.width as int,
                                bxi,
                                byi,
                            ));
                            assert(base@.pixels[pix_at(base0.width as int, x, y)]
                                == prev.pixels[pix_at(base0.width as int, x, y)]);
                        }
                    }
                }
            } else {
                proof {
                    let xo = x_off as int;
                    let yo = y_off as int;
                    assert forall|x: int, y: int|
                        0 <= x < base0.width && 0 <= y < base0.height implies base@.pixels[pix_at(
                        base0.width as int,
                        x,
                        y,
                    )] == (if (0 <= x - xo < overlay@.width && 0 <= y - yo < oy as int) || (y - yo
                        == oy as int && 0 <= x - xo < ox + 1) {
                        spec_overlay_pixel(base0, overlay@, xo, yo, x, y)
                    } else {
                        base0.pixels[pix_at(base0.width as int, x, y)]
                    }) by {
                        if y - yo == oy as int && x - xo == ox as int {
                            assert(x == xo + ox && y == yo + oy);
                            assert(false);
                        }
                    }
                }
            }
            ox = ox + 1;
        }
        oy = oy + 1;
    }
}

/// Updating one grid cell leaves every other grid cell unchanged.
proof fn lemma_update_distinct(base0: RasterV, cur: RasterV, ux: int, uy: int)
    requires
        base0.pixels.len() == base0.width * base0.height,
        cur.width == base0.width,
        cur.height == base0.height,
        cur.pixels.len() == base0.pixels.len(),
        0 <= ux < base0.width,
        0 <= uy < base0.height,
    ensures
        forall|x: int, y: int|
            0 <= x < base0.width && 0 <= y < base0.height && (x != ux || y != uy) ==> pix_at(
                base0.width as int,
                x,
                y,
            ) != pix_at(base0.width as int, ux, uy),
{
    assert forall|x: int, y: int|
        0 <= x < base0.width && 0 <= y < base0.height && (x != ux || y != uy) implies pix_at(
        base0.width as int,
        x,
        y,
    ) != pix_at(base0.width as int, ux, uy) by {
        if y != uy {
            assert(y * base0.width + x != uy * base0.width + ux) by (nonlinear_arith)
                requires
                    0 <= x < base0.width,
                    0 <= ux < base0.width,
                    y != uy,
            ;
        }
    }
}

} // verus!
