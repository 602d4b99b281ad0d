//! RGBA pixel buffers and alpha compositing of an overlay onto a base image.
use vstd::prelude::*;

verus! {

/// One 8-bit RGBA pixel (straight, not premultiplied, alpha).
#[derive(Debug, Clone, Copy, PartialEq, Eq, Structural)]
pub struct Rgba {
    pub r: u8,
    pub g: u8,
    pub b: u8,
    pub a: u8,
}

impl Rgba {
    pub fn new(r: u8, g: u8, b: u8, a: u8) -> (res: Rgba)
        ensures
            res == (Rgba { r, g, b, a }),
    {
        Rgba { r, g, b, a }
    }
}

/// What a pixel buffer holds: its size and its pixels, row after row.
pub struct ImageView {
    pub width: nat,
    pub height: nat,
    pub pixels: Seq<Rgba>,
}

impl ImageView {
    pub open spec fn wf(self) -> bool {
        self.pixels.len() == self.width * self.height
    }

    pub open spec fn in_bounds(self, x: int, y: int) -> bool {
        0 <= x < self.width && 0 <= y < self.height
    }

    pub open spec fn pixel(self, x: int, y: int) -> Rgba {
        px_at(self.pixels, self.width as int, x, y)
    }
}

/// The pixel at column `x`, row `y` of a row-major pixel sequence `width` wide.
pub open spec fn px_at(pixels: Seq<Rgba>, width: int, x: int, y: int) -> Rgba {
    pixels[y * width + x]
}

/// An RGBA image of `width` x `height` pixels stored row after row.
pub struct PixelBuffer {
    width: u32,
    height: u32,
    pixels: Vec<Rgba>,
}

impl View for PixelBuffer {
    type V = ImageView;

    closed spec fn view(&self) -> ImageView {
        ImageView { width: self.width as nat, height: self.height as nat, pixels: self.pixels@ }
    }
}

/// Weight of the overlay colour in the `over` blend: `oa * 255`.
pub open spec fn overlay_weight(oa: u8) -> int {
    oa * 255
}

/// Weight of the base colour in the `over` blend: `ba * (255 - oa)`.
pub open spec fn base_weight(oa: u8, ba: u8) -> int {
    ba * (255 - oa)
}

/// One colour channel of the `over` blend on straight alpha: the overlay's and
/// the base's colour averaged with weights `oa * 255` and `ba * (255 - oa)`,
/// rounded down. For an opaque base this is `(o * oa + b * (255 - oa)) / 255`.
pub open spec fn mix(o: u8, b: u8, oa: u8, ba: u8) -> int {
    (o * overlay_weight(oa) + b * base_weight(oa, ba)) / (overlay_weight(oa) + base_weight(oa, ba))
}

/// Alpha of the `over` blend: `oa + ba * (255 - oa) / 255`, at most 255.
pub open spec fn mix_alpha(oa: u8, ba: u8) -> int {
    let v = oa + ba * (255 - oa) / 255;
    if v < 255 {
        v
    } else {
        255
    }
}

/// The overlay pixel `o` laid over the base pixel `b` (Porter-Duff `over` on
/// straight alpha): a transparent overlay pixel keeps `b`, an opaque one
/// replaces it; any other alpha gives the alpha `oa + ba * (255 - oa) / 255`
/// and colours weighted by what each pixel contributes to that alpha.
pub open spec fn blend(o: Rgba, b: Rgba) -> Rgba {
    if o.a == 0 {
        b
    } else if o.a == 255 {
        o
    } else {
        Rgba {
            r: mix(o.r, b.r, o.a, b.a) as u8,
            g: mix(o.g, b.g, o.a, b.a) as u8,
            b: mix(o.b, b.b, o.a, b.a) as u8,
            a: mix_alpha(o.a, b.a) as u8,
        }
    }
}

/// Whether the overlay placed with its top-left corner at (x, y) and of size
/// `ow` x `oh` lies over the base pixel (px, py).
pub open spec fn covers(x: int, y: int, ow: int, oh: int, px: int, py: int) -> bool {
    x <= px < x + ow && y <= py < y + oh
}

/// The base pixel (px, py) once `ov` is composited onto `base` at (x, y).
pub open spec fn composited(base: ImageView, ov: ImageView, x: int, y: int, px: int, py: int) -> Rgba {
    if covers(x, y, ov.width as int, ov.height as int, px, py) {
        blend(ov.pixel(px - x, py - y), base.pixel(px, py))
    } else {
        base.pixel(px, py)
    }
}

pub proof fn lemma_mix_bound(o: u8, b: u8, oa: u8, ba: u8)
    requires
        oa > 0,
    ensures
        0 <= mix(o, b, oa, ba) <= 255,
        mix(o, b, oa, ba) >= (if o < b { o } else { b }),
        mix(o, b, oa, ba) <= (if o < b { b } else { o }),
        ba == 255 ==> mix(o, b, oa, ba) == (o * oa + b * (255 - oa)) / 255,
        ba == 0 ==> mix(o, b, oa, ba) == o,
{
    let lo: int = if o < b { o as int } else { b as int };
    let hi: int = if o < b { b as int } else { o as int };
    let w1: int = overlay_weight(oa);
    let w2: int = base_weight(oa, ba);
    let s: int = o * w1 + b * w2;
    let d: int = w1 + w2;
    assert(0 <= w2) by (nonlinear_arith)
        requires
            w2 == ba * (255 - oa),
            0 <= ba,
            oa <= 255,
    ;
    assert(lo * d <= s <= hi * d) by (nonlinear_arith)
        requires
            s == o * w1 + b * w2,
            d == w1 + w2,
            0 <= w1,
            0 <= w2,
            lo <= o <= hi,
            lo <= b <= hi,
    ;
    assert(lo <= s / d <= hi) by (nonlinear_arith)
        requires
            lo * d <= s <= hi * d,
            d > 0,
    ;
    if ba == 255 {
        assert(s == 255 * (o * oa + b * (255 - oa)) && d == 255 * 255) by (nonlinear_arith)
            requires
                s == o * w1 + b * w2,
                d == w1 + w2,
                w1 == oa * 255,
                w2 == ba * (255 - oa),
                ba == 255,
        ;
        assert(s / d == (o * oa + b * (255 - oa)) / 255) by (nonlinear_arith)
            requires
                s == 255 * (o * oa + b * (255 - oa)),
                d == 255 * 255,
        ;
    }
    if ba == 0 {
        assert(s == o * d) by (nonlinear_arith)
            requires
                s == o * w1 + b * w2,
                d == w1 + w2,
                w2 == ba * (255 - oa),
                ba == 0,
        ;
        assert(s / d == o) by (nonlinear_arith)
            requires
                s == o * d,
                d > 0,
        ;
    }
}

/// Position (x, y) in a row-major buffer `w` wide lies inside `w * h` cells.
pub proof fn lemma_index_in_bounds(w: int, h: int, x: int, y: int)
    requires
        0 <= x < w,
        0 <= y < h,
    ensures
        0 <= y * w,
        y * w + x < w * h,
{
    assert(0 <= y * w) by (nonlinear_arith)
        requires
            0 <= y,
            0 <= w,
    ;
    assert(y * w + x < w * h) by (nonlinear_arith)
        requires
            0 <= x < w,
            0 <= y < h,
    ;
}

/// Distinct positions of a row-major buffer `w` wide have distinct indices.
pub proof fn lemma_index_injective(w: int, x1: int, y1: int, x2: int, y2: int)
    requires
        0 <= x1 < w,
        0 <= x2 < w,
        0 <= y1,
        0 <= y2,
        x1 != x2 || y1 != y2,
    ensures
        y1 * w + x1 != y2 * w + x2,
{
    if y1 < y2 {
        assert(y1 * w + w <= y2 * w) by (nonlinear_arith)
            requires
                y1 < y2,
                0 <= w,
        ;
    } else if y2 < y1 {
        assert(y2 * w + w <= y1 * w) by (nonlinear_arith)
            requires
                y2 < y1,
                0 <= w,
        ;
    }
}

impl PixelBuffer {
    #[verifier::type_invariant]
    spec fn well_formed(self) -> bool {
        self.pixels.len() == self.width as nat * self.height as nat
    }

    /// An image of the given size with every pixel equal to `p`.
    pub fn from_pixel(width: u32, height: u32, p: Rgba) -> (res: PixelBuffer)
        requires
            width as nat * height as nat <= usize::MAX,
        ensures
            res@.wf(),
            res@.width == width,
            res@.height == height,
            forall|x: int, y: int| res@.in_bounds(x, y) ==> #[trigger] res@.pixel(x, y) == p,
    {
        let n: usize = (width as usize) * (height as usize);
        let mut pixels: Vec<Rgba> = Vec::new();
        let mut i: usize = 0;
        while i < n
            invariant
                i <= n,
                pixels@.len() == i,
                forall|j: int| 0 <= j < i ==> #[trigger] pixels@[j] == p,
            decreases n - i,
        {
            pixels.push(p);
            i = i + 1;
        }
        let res = PixelBuffer { width, height, pixels };
        proof {
            assert forall|x: int, y: int| res@.in_bounds(x, y) implies #[trigger] res@.pixel(x, y)
                == p by {
                lemma_index_in_bounds(width as int, height as int, x, y);
            }
        }
        res
    }

    /// An image of the given size read from RGBA bytes, four per pixel, row
    /// after row; `None` when the byte count is not `4 * width * height`.
    pub fn from_rgba_bytes(width: u32, height: u32, bytes: &Vec<u8>) -> (res: Option<PixelBuffer>)
        ensures
            (bytes@.len() == 4 * (width as nat * height as nat)) <==> res is Some,
            res matches Some(img) ==> {
                &&& img@.wf()
                &&& img@.width == width
                &&& img@.height == height
                &&& forall|i: int|
                    0 <= i < img@.pixels.len() ==> #[trigger] img@.pixels[i] == (Rgba {
                        r: bytes@[4 * i],
                        g: bytes@[4 * i + 1],
                        b: bytes@[4 * i + 2],
                        a: bytes@[4 * i + 3],
                    })
            },
    {
        proof {
            assert(width as int * height as int <= u64::MAX) by (nonlinear_arith)
                requires
                    width <= u32::MAX,
                    height <= u32::MAX,
            ;
        }
        let total: u64 = (width as u64) * (height as u64);
        let blen = bytes.len();
        if total > (bytes.len() / 4) as u64 || bytes.len() % 4 != 0 || total != (bytes.len()
            / 4) as u64 {
            return None;
        }
        let n: usize = bytes.len() / 4;
        let mut pixels: Vec<Rgba> = Vec::new();
        let mut i: usize = 0;
        while i < n
            invariant
                i <= n,
                n * 4 == bytes@.len(),
                blen == bytes@.len(),
                pixels@.len() == i,
                forall|j: int|
                    0 <= j < i ==> #[trigger] pixels@[j] == (Rgba {
                        r: bytes@[4 * j],
                        g: bytes@[4 * j + 1],
                        b: bytes@[4 * j + 2],
                        a: bytes@[4 * j + 3],
                    }),
            decreases n - i,
        {
            let k = 4 * i;
            pixels.push(Rgba { r: bytes[k], g: bytes[k + 1], b: bytes[k + 2], a: bytes[k + 3] });
            i = i + 1;
        }
        Some(PixelBuffer { width, height, pixels })
    }

    /// The pixels as RGBA bytes, four per pixel, row after row.
    pub fn to_rgba_bytes(&self) -> (res: Vec<u8>)
        requires
            4 * self@.pixels.len() <= usize::MAX,
        ensures
            res@.len() == 4 * self@.pixels.len(),
            forall|i: int|
                0 <= i < self@.pixels.len() ==> {
                    &&& res@[4 * i] == (#[trigger] self@.pixels[i]).r
                    &&& res@[4 * i + 1] == self@.pixels[i].g
                    &&& res@[4 * i + 2] == self@.pixels[i].b
                    &&& res@[4 * i + 3] == self@.pixels[i].a
                },
    {
        let n = self.pixels.len();
        let mut out: Vec<u8> = Vec::new();
        let mut i: usize = 0;
        while i < n
            invariant
                i <= n,
                n == self.pixels@.len(),
                4 * n <= usize::MAX,
                out@.len() == 4 * i,
                forall|j: int|
                    0 <= j < i ==> {
                        &&& out@[4 * j] == (#[trigger] self.pixels@[j]).r
                        &&& out@[4 * j + 1] == self.pixels@[j].g
                        &&& out@[4 * j + 2] == self.pixels@[j].b
                        &&& out@[4 * j + 3] == self.pixels@[j].a
                    },
            decreases n - i,
        {
            let p = self.pixels[i];
            out.push(p.r);
            out.push(p.g);
            out.push(p.b);
            out.push(p.a);
            i = i + 1;
        }
        out
    }

    pub fn width(&self) -> (res: u32)
        ensures
            res == self@.width,
    {
        self.width
    }

    pub fn height(&self) -> (res: u32)
        ensures
            res == self@.height,
    {
        self.height
    }

    /// The pixel at column `x`, row `y`.
    pub fn get_pixel(&self, x: u32, y: u32) -> (res: Rgba)
        requires
            self@.in_bounds(x as int, y as int),
        ensures
            res == self@.pixel(x as int, y as int),
    {
        proof {
            use_type_invariant(self);
            lemma_index_in_bounds(self.width as int, self.height as int, x as int, y as int);
        }
        self.pixels[(y as usize) * (self.width as usize) + (x as usize)]
    }
}

fn mix_channel(o: u8, b: u8, oa: u8, ba: u8) -> (res: u8)
    requires
        oa > 0,
    ensures
        res == mix(o, b, oa, ba),
{
    proof {
        lemma_mix_bound(o, b, oa, ba);
        assert(o as int * (oa as int * 255) <= 255 * 255 * 255) by (nonlinear_arith)
            requires
                o <= 255,
                oa <= 255,
        ;
        assert(b as int * (ba as int * (255 - oa) as int) <= 255 * 255 * 255) by (nonlinear_arith)
            requires
                b <= 255,
                ba <= 255,
                oa <= 255,
        ;
        assert(ba as int * (255 - oa) as int <= 255 * 255) by (nonlinear_arith)
            requires
                ba <= 255,
                oa <= 255,
        ;
    }
    let w1: u32 = (oa as u32) * 255;
    let w2: u32 = (ba as u32) * (255 - oa as u32);
    ((o as u32 * w1 + b as u32 * w2) / (w1 + w2)) as u8
}

fn mix_alpha_channel(oa: u8, ba: u8) -> (res: u8)
    ensures
        res == mix_alpha(oa, ba),
{
    proof {
        assert(ba as int * (255 - oa) as int <= 255 * 255) by (nonlinear_arith)
            requires
                ba <= 255,
                oa <= 255,
        ;
    }
    let inv: u32 = 255 - oa as u32;
    let v: u32 = oa as u32 + (ba as u32) * inv / 255;
    if v < 255 {
        v as u8
    } else {
        255
    }
}

/// Pastes `overlay` on top of `base` with its top-left corner at (x, y), using
/// alpha blending. Overlay pixels that fall outside `base` are clipped.
pub fn apply_to_image(base: &mut PixelBuffer, overlay: &PixelBuffer, x: i64, y: i64)
    requires
        x + overlay@.width <= i64::MAX,
        y + overlay@.height <= i64::MAX,
    ensures
        final(base)@.wf(),
        final(base)@.width == old(base)@.width,
        final(base)@.height == old(base)@.height,
        forall|px: int, py: int|
            old(base)@.in_bounds(px, py) ==> #[trigger] final(base)@.pixel(px, py) == composited(
                old(base)@,
                overlay@,
                x as int,
                y as int,
                px,
                py,
            ),
{
    proof {
        use_type_invariant(&*base);
        use_type_invariant(overlay);
    }
    let ghost old_view = base@;
    let mut taken = PixelBuffer { width: 0, height: 0, pixels: Vec::new() };
    std::mem::swap(base, &mut taken);
    let PixelBuffer { width, height, mut pixels } = taken;
    let ghost ov = overlay@;
    let bw: i64 = width as i64;
    let bh: i64 = height as i64;
    let ow: i64 = overlay.width as i64;
    let oh: i64 = overlay.height as i64;
    let x0: i64 = if x > 0 { x } else { 0 };
    let y0: i64 = if y > 0 { y } else { 0 };
    let x1: i64 = if x + ow < bw { x + ow } else { bw };
    let y1: i64 = if y + oh < bh { y + oh } else { bh };
    if x0 >= x1 || y0 >= y1 {
        *base = PixelBuffer { width, height, pixels };
        proof {
            assert forall|px: int, py: int| old_view.in_bounds(px, py) implies #[trigger] base@.pixel(
                px,
                py,
            ) == composited(old_view, ov, x as int, y as int, px, py) by {}
        }
        return;
    }
    let olen = overlay.pixels.len();
    let blen = pixels.len();
    let mut py: i64 = y0;
    while py < y1
        invariant
            olen == ov.pixels.len(),
            blen == pixels@.len(),
            0 <= y0 <= py <= y1 <= bh,
            0 <= x0 < x1 <= bw,
            x0 == (if x > 0 { x } else { 0 }),
            y0 == (if y > 0 { y } else { 0 }),
            x1 == (if x + ow < bw { x + ow } else { bw as int }),
            y1 == (if y + oh < bh { y + oh } else { bh as int }),
            bw == old_view.width,
            bh == old_view.height,
            ow == ov.width,
            oh == ov.height,
            ov == overlay@,
            ov.wf(),
            old_view.wf(),
            width == old_view.width,
            height == old_view.height,
            pixels@.len() == old_view.pixels.len(),
            forall|qx: int, qy: int|
                old_view.in_bounds(qx, qy) ==> #[trigger] px_at(pixels@, bw as int, qx, qy) == (
                if qy < py {
                    composited(old_view, ov, x as int, y as int, qx, qy)
                } else {
                    old_view.pixel(qx, qy)
                }),
        decreases y1 - py,
    {
        proof {
            assert forall|qx: int, qy: int| old_view.in_bounds(qx, qy) implies #[trigger] px_at(
                pixels@,
                bw as int,
                qx,
                qy,
            ) == (if qy < py || (qy == py && qx < x0) {
                composited(old_view, ov, x as int, y as int, qx, qy)
            } else {
                old_view.pixel(qx, qy)
            }) by {
                if qy == py && qx < x0 {
                    assert(!covers(x as int, y as int, ow as int, oh as int, qx, qy));
                }
            }
        }
        let mut px: i64 = x0;
        while px < x1
            invariant
                olen == ov.pixels.len(),
                blen == pixels@.len(),
                0 <= y0 <= py < y1 <= bh,
                0 <= x0 <= px <= x1 <= bw,
                x0 == (if x > 0 { x } else { 0 }),
                y0 == (if y > 0 { y } else { 0 }),
                x1 == (if x + ow < bw { x + ow } else { bw as int }),
                y1 == (if y + oh < bh { y + oh } else { bh as int }),
                bw == old_view.width,
                bh == old_view.height,
                ow == ov.width,
                oh == ov.height,
                ov == overlay@,
                ov.wf(),
                old_view.wf(),
                width == old_view.width,
                height == old_view.height,
                pixels@.len() == old_view.pixels.len(),
                forall|qx: int, qy: int|
                    old_view.in_bounds(qx, qy) ==> #[trigger] px_at(pixels@, bw as int, qx, qy)
                        == (if qy < py || (qy == py && qx < px) {
                        composited(old_view, ov, x as int, y as int, qx, qy)
                    } else {
                        old_view.pixel(qx, qy)
                    }),
            decreases x1 - px,
        {
            let ox: i64 = px - x;
            let oy: i64 = py - y;
            proof {
                lemma_index_in_bounds(ow as int, oh as int, ox as int, oy as int);
                lemma_index_in_bounds(bw as int, bh as int, px as int, py as int);
            }
            let oi: usize = (oy as usize) * (ow as usize) + (ox as usize);
            let bi: usize = (py as usize) * (bw as usize) + (px as usize);
            let op = overlay.pixels[oi];
            let ghost before = pixels@;
            proof {
                assert(op == ov.pixel(ox as int, oy as int));
                assert(px_at(pixels@, bw as int, px as int, py as int) == old_view.pixel(
                    px as int,
                    py as int,
                ));
                assert(covers(x as int, y as int, ow as int, oh as int, px as int, py as int));
            }
            if op.a != 0 {
                let newp = if op.a == 255 {
                    op
                } else {
                    let bp = pixels[bi];
                    Rgba {
                        r: mix_channel(op.r, bp.r, op.a, bp.a),
                        g: mix_channel(op.g, bp.g, op.a, bp.a),
                        b: mix_channel(op.b, bp.b, op.a, bp.a),
                        a: mix_alpha_channel(op.a, bp.a),
                    }
                };
                proof {
                    let bp0 = old_view.pixel(px as int, py as int);
                    lemma_mix_bound(op.r, bp0.r, op.a, bp0.a);
                    lemma_mix_bound(op.g, bp0.g, op.a, bp0.a);
                    lemma_mix_bound(op.b, bp0.b, op.a, bp0.a);
                    assert(newp == blend(op, old_view.pixel(px as int, py as int)));
                }
                pixels.set(bi, newp);
                proof {
                    assert(px_at(pixels@, bw as int, px as int, py as int) == newp);
                }
            }
            proof {
                assert forall|qx: int, qy: int| old_view.in_bounds(qx, qy) implies #[trigger] px_at(
                    pixels@,
                    bw as int,
                    qx,
                    qy,
                ) == (if qy < py || (qy == py && qx < px + 1) {
                    composited(old_view, ov, x as int, y as int, qx, qy)
                } else {
                    old_view.pixel(qx, qy)
                }) by {
                    lemma_index_in_bounds(bw as int, bh as int, qx, qy);
                    if qx != px || qy != py {
                        lemma_index_injective(bw as int, qx, qy, px as int, py as int);
                        assert(px_at(pixels@, bw as int, qx, qy) == px_at(
                            before,
                            bw as int,
                            qx,
                            qy,
                        ));
                    }
                }
            }
            px = px + 1;
        }
        proof {
            assert forall|qx: int, qy: int| old_view.in_bounds(qx, qy) implies #[trigger] px_at(
                pixels@,
                bw as int,
                qx,
                qy,
            ) == (if qy < py + 1 {
                composited(old_view, ov, x as int, y as int, qx, qy)
            } else {
                old_view.pixel(qx, qy)
            }) by {
                if qy == py && qx >= px {
                    assert(!covers(x as int, y as int, ow as int, oh as int, qx, qy));
                }
            }
        }
        py = py + 1;
    }
    *base = PixelBuffer { width, height, pixels };
    proof {
        assert forall|qx: int, qy: int| old_view.in_bounds(qx, qy) implies #[trigger] base@.pixel(
            qx,
            qy,
        ) == composited(old_view, ov, x as int, y as int, qx, qy) by {
            assert(px_at(base.pixels@, bw as int, qx, qy) == base@.pixel(qx, qy));
        }
    }
}

/// A fully transparent overlay pixel leaves the base pixel as it was.
pub proof fn lemma_transparent_pixel_keeps_base(o: Rgba, b: Rgba)
    requires
        o.a == 0,
    ensures
        blend(o, b) == b,
{
}

/// A fully opaque overlay pixel replaces the base pixel.
pub proof fn lemma_opaque_pixel_replaces_base(o: Rgba, b: Rgba)
    requires
        o.a == 255,
    ensures
        blend(o, b) == o,
{
}

/// Each colour channel of a blended pixel lies between the overlay's and the base's.
pub proof fn lemma_blend_channels_between(o: Rgba, b: Rgba)
    ensures
        (o.r <= blend(o, b).r <= b.r) || (b.r <= blend(o, b).r <= o.r),
        (o.g <= blend(o, b).g <= b.g) || (b.g <= blend(o, b).g <= o.g),
        (o.b <= blend(o, b).b <= b.b) || (b.b <= blend(o, b).b <= o.b),
{
    if o.a != 0 {
        lemma_mix_bound(o.r, b.r, o.a, b.a);
        lemma_mix_bound(o.g, b.g, o.a, b.a);
        lemma_mix_bound(o.b, b.b, o.a, b.a);
    }
}

/// Blending never makes a pixel more transparent than the overlay or the base was.
pub proof fn lemma_blend_alpha_not_lower(o: Rgba, b: Rgba)
    ensures
        blend(o, b).a >= o.a,
        blend(o, b).a >= b.a,
{
    if o.a != 0 && o.a != 255 {
        let t: int = b.a * (255 - o.a);
        assert(t / 255 >= b.a - o.a) by (nonlinear_arith)
            requires
                t == b.a * (255 - o.a),
                0 <= o.a <= 255,
                0 <= b.a <= 255,
        ;
        assert(t / 255 >= 0) by (nonlinear_arith)
            requires
                t == b.a * (255 - o.a),
                0 <= o.a <= 255,
                0 <= b.a <= 255,
        ;
    }
}

/// An opaque base pixel stays opaque whatever is laid over it.
pub proof fn lemma_opaque_base_stays_opaque(o: Rgba, b: Rgba)
    requires
        b.a == 255,
    ensures
        blend(o, b).a == 255,
{
    if o.a != 0 && o.a != 255 {
        assert(255 * (255 - o.a) / 255 == 255 - o.a) by (nonlinear_arith)
            requires
                0 <= o.a <= 255,
        ;
    }
}

/// Base pixels that the overlay does not cover are left as they were (clipping).
pub proof fn lemma_uncovered_pixels_unchanged(
    base: ImageView,
    ov: ImageView,
    x: int,
    y: int,
    px: int,
    py: int,
)
    requires
        !covers(x, y, ov.width as int, ov.height as int, px, py),
    ensures
        composited(base, ov, x, y, px, py) == base.pixel(px, py),
{
}

/// Compositing an overlay whose pixels are all fully transparent changes nothing.
pub proof fn lemma_transparent_overlay_is_identity(
    base: ImageView,
    ov: ImageView,
    x: int,
    y: int,
)
    requires
        forall|ox: int, oy: int| ov.in_bounds(ox, oy) ==> (#[trigger] ov.pixel(ox, oy)).a == 0,
    ensures
        forall|px: int, py: int|
            base.in_bounds(px, py) ==> #[trigger] composited(base, ov, x, y, px, py) == base.pixel(
                px,
                py,
            ),
{
    assert forall|px: int, py: int| base.in_bounds(px, py) implies #[trigger] composited(
        base,
        ov,
        x,
        y,
        px,
        py,
    ) == base.pixel(px, py) by {
        if covers(x, y, ov.width as int, ov.height as int, px, py) {
            assert(ov.in_bounds(px - x, py - y));
        }
    }
}

/// Compositing an overlay whose pixels are each fully opaque or fully
/// transparent a second time at the same place changes nothing: `again` is any
/// image whose pixels are those of the first result.
pub proof fn lemma_binary_alpha_overlay_idempotent(
    base: ImageView,
    again: ImageView,
    ov: ImageView,
    x: int,
    y: int,
)
    requires
        forall|ox: int, oy: int|
            ov.in_bounds(ox, oy) ==> (#[trigger] ov.pixel(ox, oy)).a == 0 || ov.pixel(ox, oy).a
                == 255,
        again.width == base.width,
        again.height == base.height,
        forall|px: int, py: int|
            base.in_bounds(px, py) ==> #[trigger] again.pixel(px, py) == composited(
                base,
                ov,
                x,
                y,
                px,
                py,
            ),
    ensures
        forall|px: int, py: int|
            base.in_bounds(px, py) ==> #[trigger] composited(again, ov, x, y, px, py)
                == again.pixel(px, py),
{
    assert forall|px: int, py: int| base.in_bounds(px, py) implies #[trigger] composited(
        again,
        ov,
        x,
        y,
        px,
        py,
    ) == again.pixel(px, py) by {
        assert(again.pixel(px, py) == composited(base, ov, x, y, px, py));
        if covers(x, y, ov.width as int, ov.height as int, px, py) {
            assert(ov.in_bounds(px - x, py - y));
        }
    }
}

/// Over a fully transparent base pixel the blend gives the overlay pixel
/// unchanged (unless that is fully transparent too, which keeps the base).
pub proof fn lemma_over_transparent_base(o: Rgba, b: Rgba)
    requires
        b.a == 0,
        o.a != 0,
    ensures
        blend(o, b) == o,
{
    if o.a != 255 {
        lemma_mix_bound(o.r, b.r, o.a, b.a);
        lemma_mix_bound(o.g, b.g, o.a, b.a);
        lemma_mix_bound(o.b, b.b, o.a, b.a);
        assert(0 * (255 - o.a) / 255 == 0);
    }
}

/// Pixels written out as RGBA bytes by `to_rgba_bytes` and read back by
/// `from_rgba_bytes` are the pixels written, and bytes read in by
/// `from_rgba_bytes` and written out again by `to_rgba_bytes` are the bytes read.
pub proof fn lemma_rgba_bytes_round_trip(p: Seq<Rgba>, bytes: Seq<u8>, q: Seq<Rgba>)
    requires
        bytes.len() == 4 * p.len(),
        q.len() == p.len(),
        forall|i: int|
            0 <= i < p.len() ==> {
                &&& bytes[4 * i] == (#[trigger] p[i]).r
                &&& bytes[4 * i + 1] == p[i].g
                &&& bytes[4 * i + 2] == p[i].b
                &&& bytes[4 * i + 3] == p[i].a
            },
        forall|i: int|
            0 <= i < q.len() ==> #[trigger] q[i] == (Rgba {
                r: bytes[4 * i],
                g: bytes[4 * i + 1],
                b: bytes[4 * i + 2],
                a: bytes[4 * i + 3],
            }),
    ensures
        q == p,
{
    assert forall|i: int| 0 <= i < p.len() implies q[i] == p[i] by {
        assert(q[i] == (Rgba {
            r: bytes[4 * i],
            g: bytes[4 * i + 1],
            b: bytes[4 * i + 2],
            a: bytes[4 * i + 3],
        }));
        assert(bytes[4 * i] == p[i].r);
    }
    assert(q =~= p);
}

/// Each overlay pixel lands where the overlay's top-left corner puts it,
/// whatever the signs of x and y: the overlay pixel (ox, oy), when (x + ox,
/// y + oy) is a base pixel, is blended over that base pixel; an opaque overlay
/// pixel shows there as it is.
pub proof fn lemma_overlay_pixel_lands_at_offset(
    base: ImageView,
    ov: ImageView,
    x: int,
    y: int,
    ox: int,
    oy: int,
)
    requires
        ov.in_bounds(ox, oy),
        base.in_bounds(x + ox, y + oy),
    ensures
        composited(base, ov, x, y, x + ox, y + oy) == blend(
            ov.pixel(ox, oy),
            base.pixel(x + ox, y + oy),
        ),
        ov.pixel(ox, oy).a == 255 ==> composited(base, ov, x, y, x + ox, y + oy) == ov.pixel(
            ox,
            oy,
        ),
{
    assert(x + ox - x == ox && y + oy - y == oy);
}

} // verus!
