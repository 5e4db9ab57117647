//! The raster canvas and its pixels: the substrate every filter operates on.
use vstd::prelude::*;

verus! {

/// A 4-channel RGBA color value with value semantics.
#[derive(Clone, Copy, Debug, PartialEq, Eq, Structural)]
pub struct Pixl {
    pub r: u8,
    pub g: u8,
    pub b: u8,
    pub a: u8,
}

impl Pixl {
    /// The color `invert` turns `self` into: each color channel is replaced
    /// by `255 - channel`; alpha is untouched.
    pub open spec fn inverted(self) -> Pixl {
        Pixl { r: (255 - self.r) as u8, g: (255 - self.g) as u8, b: (255 - self.b) as u8, a: self.a }
    }

    /// The uniform background color of a fresh or cleared canvas.
    pub open spec fn white_spec() -> Pixl {
        Pixl { r: 255, g: 255, b: 255, a: 255 }
    }

    /// The fill color of grid lines, noise speckles and occluding circles.
    pub open spec fn black_spec() -> Pixl {
        Pixl { r: 0, g: 0, b: 0, a: 255 }
    }

    pub fn new(r: u8, g: u8, b: u8) -> (p: Pixl)
        ensures
            p == (Pixl { r, g, b, a: 255u8 }),
    {
        Pixl { r, g, b, a: 255 }
    }

    pub fn new_with_alpha(r: u8, g: u8, b: u8, a: u8) -> (p: Pixl)
        ensures
            p == (Pixl { r, g, b, a }),
    {
        Pixl { r, g, b, a }
    }

    pub fn black() -> (p: Pixl)
        ensures
            p == Pixl::black_spec(),
    {
        Pixl::new(0, 0, 0)
    }

    pub fn red() -> (p: Pixl)
        ensures
            p == (Pixl { r: 255u8, g: 0u8, b: 0u8, a: 255u8 }),
    {
        Pixl::new(255, 0, 0)
    }

    pub fn white() -> (p: Pixl)
        ensures
            p == Pixl::white_spec(),
    {
        Pixl::new(255, 255, 255)
    }

    /// Replaces each color channel by `255 - channel`; alpha is untouched.
    pub fn invert(&mut self)
        ensures
            *final(self) == old(self).inverted(),
    {
        self.r = 255 - self.r;
        self.g = 255 - self.g;
        self.b = 255 - self.b;
    }
}

/// The mathematical model of a canvas: a fixed width and height together
/// with the row-major sequence of its pixels.
#[verifier::ext_equal]
pub struct ImageV {
    pub width: nat,
    pub height: nat,
    pub pixels: Seq<Pixl>,
}

impl ImageV {
    /// The pixel sequence holds exactly one pixel per grid cell.
    pub open spec fn wf(self) -> bool {
        self.pixels.len() == self.width * self.height
    }

    pub open spec fn in_bounds(self, x: int, y: int) -> bool {
        0 <= x < self.width && 0 <= y < self.height
    }

    /// The pixel at column `x` of row `y`.
    pub open spec fn pix(self, x: int, y: int) -> Pixl {
        self.pixels[y * self.width + x]
    }

    /// `other` has the same dimensions as `self`.
    pub open spec fn same_size(self, other: ImageV) -> bool {
        self.width == other.width && self.height == other.height
    }
}

/// A row-major grid cell index stays inside the pixel sequence.
pub proof fn lemma_index_bound(x: int, y: int, w: int, h: int)
    requires
        0 <= x < w,
        0 <= y < h,
    ensures
        0 <= y * w + x < w * h,
{
    assert(y * w + x < w * h) by (nonlinear_arith)
        requires
            0 <= x < w,
            0 <= y < h,
    ;
    assert(0 <= y * w) by (nonlinear_arith)
        requires
            0 <= y,
            0 <= w,
    ;
}

/// Two well-formed canvases of the same size that agree on every pixel
/// are equal.
pub proof fn lemma_pointwise_eq(a: ImageV, b: ImageV)
    requires
        a.wf(),
        b.wf(),
        a.same_size(b),
        forall|x: int, y: int| a.in_bounds(x, y) ==> a.pix(x, y) == b.pix(x, y),
    ensures
        a == b,
{
    let w = a.width as int;
    let h = a.height as int;
    assert forall|i: int| 0 <= i < a.pixels.len() implies a.pixels[i] == b.pixels[i] by {
        let x = i % w;
        let y = i / w;
        assert(w > 0) by (nonlinear_arith)
            requires
                0 <= i < w * h,
                w >= 0,
                h >= 0,
        ;
        vstd::arithmetic::div_mod::lemma_fundamental_div_mod(i, w);
        vstd::arithmetic::div_mod::lemma_mod_bound(i, w);
        assert(0 <= y < h) by (nonlinear_arith)
            requires
                i == w * y + x,
                0 <= i < w * h,
                0 <= x < w,
        ;
        assert(a.in_bounds(x, y));
        assert(a.pix(x, y) == a.pixels[i]);
    }
    assert(a.pixels =~= b.pixels);
    assert(a =~= b);
}

/// An owned, mutable two-dimensional grid of pixels. The width and height
/// are fixed for the canvas's lifetime. Reads demand in-range coordinates;
/// writes outside the grid are silently dropped, so filters may compute
/// coordinates that spill outside the bounds without clamping them first.
pub struct Image {
    width: u32,
    height: u32,
    pixels: Vec<Pixl>,
}

impl View for Image {
    type V = ImageV;

    closed spec fn view(&self) -> ImageV {
        ImageV { width: self.width as nat, height: self.height as nat, pixels: self.pixels@ }
    }
}

/// A canvas's dimensions always fit in 32 bits.
pub proof fn lemma_dims_bounded(i: &Image)
    ensures
        i@.width <= u32::MAX,
        i@.height <= u32::MAX,
{
}

impl Image {
    /// A fresh canvas is filled with the white background color.
    pub fn new(w: u32, h: u32) -> (img: Image)
        requires
            w * h <= usize::MAX,
        ensures
            img@.wf(),
            img@.width == w,
            img@.height == h,
            forall|x: int, y: int| img@.in_bounds(x, y) ==> img@.pix(x, y) == Pixl::white_spec(),
    {
        let n: usize = (w as usize) * (h as usize);
        let mut pixels: Vec<Pixl> = Vec::new();
        let mut i: usize = 0;
        while i < n
            invariant
                i <= n,
                n == w * h,
                pixels@.len() == i,
                forall|j: int| 0 <= j < i ==> pixels@[j] == Pixl::white_spec(),
            decreases n - i,
        {
            pixels.push(Pixl::white());
            i = i + 1;
        }
        let img = Image { width: w, height: h, pixels };
        proof {
            assert forall|x: int, y: int| img@.in_bounds(x, y) implies img@.pix(x, y)
                == Pixl::white_spec() by {
                lemma_index_bound(x, y, w as int, h as int);
            }
        }
        img
    }

    pub fn width(&self) -> (r: u32)
        ensures
            r == self@.width,
    {
        self.width
    }

    pub fn height(&self) -> (r: u32)
        ensures
            r == self@.height,
    {
        self.height
    }

    /// Reading demands in-range coordinates.
    pub fn get_pixel(&self, x: u32, y: u32) -> (p: Pixl)
        requires
            self@.wf(),
            self@.in_bounds(x as int, y as int),
        ensures
            p == self@.pix(x as int, y as int),
    {
        let n: usize = self.pixels.len();
        proof {
            lemma_index_bound(x as int, y as int, self@.width as int, self@.height as int);
        }
        let idx: usize = (y as usize) * (self.width as usize) + (x as usize);
        self.pixels[idx]
    }

    /// Writing outside the grid is silently dropped.
    pub fn put_pixel(&mut self, x: u32, y: u32, p: Pixl)
        requires
            old(self)@.wf(),
        ensures
            final(self)@.wf(),
            final(self)@.same_size(old(self)@),
            old(self)@.in_bounds(x as int, y as int) ==> final(self)@.pixels
                == old(self)@.pixels.update(y * old(self)@.width + x, p),
            !old(self)@.in_bounds(x as int, y as int) ==> final(self)@ == old(self)@,
    {
        if x < self.width && y < self.height {
            let n: usize = self.pixels.len();
            proof {
                lemma_index_bound(x as int, y as int, self@.width as int, self@.height as int);
            }
            let idx: usize = (y as usize) * (self.width as usize) + (x as usize);
            self.pixels.set(idx, p);
        }
    }

    /// Resets every pixel to the white background color.
    pub fn clear(&mut self)
        requires
            old(self)@.wf(),
        ensures
            final(self)@.wf(),
            final(self)@.same_size(old(self)@),
            forall|x: int, y: int|
                final(self)@.in_bounds(x, y) ==> final(self)@.pix(x, y) == Pixl::white_spec(),
    {
        let n: usize = self.pixels.len();
        let mut pixels: Vec<Pixl> = Vec::new();
        let mut i: usize = 0;
        while i < n
            invariant
                i <= n,
                pixels@.len() == i,
                forall|j: int| 0 <= j < i ==> pixels@[j] == Pixl::white_spec(),
            decreases n - i,
        {
            pixels.push(Pixl::white());
            i = i + 1;
        }
        self.pixels = pixels;
        proof {
            assert forall|x: int, y: int| self@.in_bounds(x, y) implies self@.pix(x, y)
                == Pixl::white_spec() by {
                lemma_index_bound(x, y, self@.width as int, self@.height as int);
            }
        }
    }

    /// Replaces every pixel whose red channel is zero (taken to mean a black
    /// glyph stroke) by the given color; all other pixels are untouched.
    pub fn set_color(&mut self, color: Pixl)
        requires
            old(self)@.wf(),
        ensures
            final(self)@.wf(),
            final(self)@.same_size(old(self)@),
            forall|x: int, y: int|
                old(self)@.in_bounds(x, y) ==> final(self)@.pix(x, y) == if old(self)@.pix(
                    x,
                    y,
                ).r == 0 {
                    color
                } else {
                    old(self)@.pix(x, y)
                },
    {
        let ghost orig: ImageV = self@;
        let w = self.width;
        let h = self.height;
        let mut y: u32 = 0;
        while y < h
            invariant
                y <= h,
                self@.wf(),
                self@.same_size(orig),
                orig.wf(),
                w == orig.width,
                h == orig.height,
                forall|i: int, j: int|
                    orig.in_bounds(i, j) ==> #[trigger] self@.pix(i, j) == if j < y && orig.pix(
                        i,
                        j,
                    ).r == 0 {
                        color
                    } else {
                        orig.pix(i, j)
                    },
            decreases h - y,
        {
            let mut x: u32 = 0;
            while x < w
                invariant
                    x <= w,
                    y < h,
                    self@.wf(),
                    self@.same_size(orig),
                    orig.wf(),
                    w == orig.width,
                    h == orig.height,
                    forall|i: int, j: int|
                        orig.in_bounds(i, j) ==> #[trigger] self@.pix(i, j) == if before(
                            i,
                            j,
                            x as int,
                            y as int,
                        ) && orig.pix(i, j).r == 0 {
                            color
                        } else {
                            orig.pix(i, j)
                        },
                decreases w - x,
            {
                let c = self.get_pixel(x, y);
                if c.r == 0 {
                    let ghost pre: ImageV = self@;
                    self.put_pixel(x, y, color);
                    proof {
                        assert(self@ =~= (ImageV {
                            pixels: pre.pixels.update(y * pre.width + x, color),
                            ..pre
                        }));
                        lemma_put_pix(pre, x as int, y as int, color);
                    }
                }
                x = x + 1;
            }
            y = y + 1;
        }
    }

    /// Overlays another canvas at offset `(x, y)`, pixel by pixel; targets
    /// that fall outside this canvas are dropped.
    pub fn add_image(&mut self, x: u32, y: u32, other: &Image)
        requires
            old(self)@.wf(),
            other@.wf(),
        ensures
            final(self)@.wf(),
            final(self)@.same_size(old(self)@),
            forall|i: int, j: int|
                old(self)@.in_bounds(i, j) ==> #[trigger] final(self)@.pix(i, j) == if x <= i < x
                    + other@.width && y <= j < y + other@.height {
                    other@.pix(i - x, j - y)
                } else {
                    old(self)@.pix(i, j)
                },
    {
        let ghost orig: ImageV = self@;
        let ow = other.width;
        let oh = other.height;
        let mut iy: u32 = 0;
        while iy < oh
            invariant
                iy <= oh,
                self@.wf(),
                self@.same_size(orig),
                orig.wf(),
                other@.wf(),
                ow == other@.width,
                oh == other@.height,
                forall|i: int, j: int|
                    orig.in_bounds(i, j) ==> #[trigger] self@.pix(i, j) == if x <= i < x + ow && y
                        <= j < y + iy {
                        other@.pix(i - x, j - y)
                    } else {
                        orig.pix(i, j)
                    },
            decreases oh - iy,
        {
            let mut ix: u32 = 0;
            while ix < ow
                invariant
                    ix <= ow,
                    iy < oh,
                    self@.wf(),
                    self@.same_size(orig),
                    orig.wf(),
                    other@.wf(),
                    ow == other@.width,
                    oh == other@.height,
                    forall|i: int, j: int|
                        orig.in_bounds(i, j) ==> #[trigger] self@.pix(i, j) == if x <= i < x + ow
                            && y <= j < y + iy {
                            other@.pix(i - x, j - y)
                        } else if j == y + iy && x <= i < x + ix {
                            other@.pix(i - x, j - y)
                        } else {
                            orig.pix(i, j)
                        },
                decreases ow - ix,
            {
                let p = other.get_pixel(ix, iy);
                let tx: u64 = x as u64 + ix as u64;
                let ty: u64 = y as u64 + iy as u64;
                if tx < self.width as u64 && ty < self.height as u64 {
                    let ghost pre: ImageV = self@;
                    self.put_pixel(tx as u32, ty as u32, p);
                    proof {
                        assert(self@ =~= (ImageV {
                            pixels: pre.pixels.update(ty * pre.width + tx, p),
                            ..pre
                        }));
                        lemma_put_pix(pre, tx as int, ty as int, p);
                    }
                }
                ix = ix + 1;
            }
            iy = iy + 1;
        }
    }
}

/// A point strictly outside the bounding box of the disc is not on the disc.
pub proof fn lemma_outside_box(cx: int, cy: int, r: int, a: int, b: int)
    requires
        r >= 0,
        a < cx - r || a > cx + r || b < cy - r || b > cy + r,
    ensures
        !in_circle(cx, cy, r, a, b),
{
    assert((a - cx) * (a - cx) >= 0) by (nonlinear_arith);
    assert((b - cy) * (b - cy) >= 0) by (nonlinear_arith);
    if a < cx - r || a > cx + r {
        assert((a - cx) * (a - cx) >= (r + 1) * (r + 1)) by (nonlinear_arith)
            requires
                r >= 0,
                a < cx - r || a > cx + r,
        ;
    } else {
        assert((b - cy) * (b - cy) >= (r + 1) * (r + 1)) by (nonlinear_arith)
            requires
                r >= 0,
                b < cy - r || b > cy + r,
        ;
    }
}

impl Image {
    /// Sets every pixel whose integer-truncated Euclidean distance from
    /// `(x, y)` is at most `r` to `p`; parts of the disc that extend past
    /// the canvas edges are dropped.
    pub fn fill_circle(&mut self, x: u32, y: u32, r: u32, p: Pixl)
        requires
            old(self)@.wf(),
        ensures
            final(self)@.wf(),
            final(self)@.same_size(old(self)@),
            forall|i: int, j: int|
                old(self)@.in_bounds(i, j) ==> #[trigger] final(self)@.pix(i, j) == if in_circle(
                    x as int,
                    y as int,
                    r as int,
                    i,
                    j,
                ) {
                    p
                } else {
                    old(self)@.pix(i, j)
                },
    {
        let ghost orig: ImageV = self@;
        let w = self.width;
        let h = self.height;
        if w == 0 || h == 0 {
            return ;
        }
        let cx: i64 = x as i64;
        let cy: i64 = y as i64;
        let rr: i64 = r as i64;
        let x0: i64 = if cx - rr > 0 {
            cx - rr
        } else {
            0
        };
        let x1: i64 = if cx + rr < w as i64 - 1 {
            cx + rr
        } else {
            w as i64 - 1
        };
        let y0: i64 = if cy - rr > 0 {
            cy - rr
        } else {
            0
        };
        let y1: i64 = if cy + rr < h as i64 - 1 {
            cy + rr
        } else {
            h as i64 - 1
        };
        if y0 > y1 || x0 > x1 {
            // The disc's bounding box misses the canvas entirely.
            proof {
                assert forall|i: int, j: int| orig.in_bounds(i, j) implies !in_circle(
                    x as int,
                    y as int,
                    r as int,
                    i,
                    j,
                ) by {
                    lemma_outside_box(x as int, y as int, r as int, i, j);
                }
            }
            return ;
        }
        proof {
            assert forall|i: int, j: int| orig.in_bounds(i, j) && !(y0 <= j) implies !in_circle(
                x as int,
                y as int,
                r as int,
                i,
                j,
            ) by {
                lemma_outside_box(x as int, y as int, r as int, i, j);
            }
        }
        let mut jj: i64 = y0;
        while jj <= y1
            invariant
                y0 <= jj <= y1 + 1,
                x0 <= x1,
                y0 <= y1,
                0 <= y0,
                y1 < h,
                0 <= x0,
                x1 < w,
                cx == x,
                cy == y,
                rr == r,
                x0 == if cx - rr > 0 { cx - rr } else { 0 },
                x1 == if cx + rr < w - 1 { cx + rr } else { w as i64 - 1 },
                y0 == if cy - rr > 0 { cy - rr } else { 0 },
                y1 == if cy + rr < h - 1 { cy + rr } else { h as i64 - 1 },
                self@.wf(),
                self@.same_size(orig),
                orig.wf(),
                w == orig.width,
                h == orig.height,
                forall|i: int, j: int|
                    orig.in_bounds(i, j) ==> #[trigger] self@.pix(i, j) == if in_circle(
                        x as int,
                        y as int,
                        r as int,
                        i,
                        j,
                    ) && j < jj {
                        p
                    } else {
                        orig.pix(i, j)
                    },
            decreases y1 + 1 - jj,
        {
            proof {
                assert forall|i: int, j: int|
                    orig.in_bounds(i, j) && j == jj && i < x0 implies !in_circle(
                    x as int,
                    y as int,
                    r as int,
                    i,
                    j,
                ) by {
                    lemma_outside_box(x as int, y as int, r as int, i, j);
                }
            }
            let mut ii: i64 = x0;
            while ii <= x1
                invariant
                    x0 <= ii <= x1 + 1,
                    x0 <= x1,
                    y0 <= jj <= y1,
                    0 <= y0,
                    y1 < h,
                    0 <= x0,
                    x1 < w,
                    cx == x,
                    cy == y,
                    rr == r,
                    x0 == if cx - rr > 0 { cx - rr } else { 0 },
                    x1 == if cx + rr < w - 1 { cx + rr } else { w as i64 - 1 },
                    self@.wf(),
                    self@.same_size(orig),
                    orig.wf(),
                    w == orig.width,
                    h == orig.height,
                    forall|i: int, j: int|
                        orig.in_bounds(i, j) ==> #[trigger] self@.pix(i, j) == if in_circle(
                            x as int,
                            y as int,
                            r as int,
                            i,
                            j,
                        ) && (j < jj || (j == jj && i < ii)) {
                            p
                        } else {
                            orig.pix(i, j)
                        },
                decreases x1 + 1 - ii,
            {
                let dx: i128 = (ii - cx) as i128;
                let dy: i128 = (jj - cy) as i128;
                proof {
                    assert(0 <= dx * dx <= 0x40000000000000000i128) by (nonlinear_arith)
                        requires
                            -0x200000000i128 <= dx <= 0x200000000i128,
                    ;
                    assert(0 <= dy * dy <= 0x40000000000000000i128) by (nonlinear_arith)
                        requires
                            -0x200000000i128 <= dy <= 0x200000000i128,
                    ;
                }
                let d2: i128 = dx * dx + dy * dy;
                let rp: i128 = (rr + 1) as i128;
                proof {
                    assert(0 <= rp * rp <= 0x40000000000000000i128) by (nonlinear_arith)
                        requires
                            0 <= rp <= 0x200000000i128,
                    ;
                }
                let rhs: i128 = rp * rp;
                if d2 < rhs {
                    let ghost pre: ImageV = self@;
                    self.put_pixel(ii as u32, jj as u32, p);
                    proof {
                        assert(self@ =~= (ImageV {
                            pixels: pre.pixels.update(jj * pre.width + ii, p),
                            ..pre
                        }));
                        lemma_put_pix(pre, ii as int, jj as int, p);
                    }
                }
                ii = ii + 1;
            }
            proof {
                assert forall|i: int, j: int|
                    orig.in_bounds(i, j) && j == jj && !(x0 <= i <= x1) implies !in_circle(
                    x as int,
                    y as int,
                    r as int,
                    i,
                    j,
                ) by {
                    lemma_outside_box(x as int, y as int, r as int, i, j);
                }
            }
            jj = jj + 1;
        }
        proof {
            assert forall|i: int, j: int|
                orig.in_bounds(i, j) && !(j <= y1) implies !in_circle(
                x as int,
                y as int,
                r as int,
                i,
                j,
            ) by {
                lemma_outside_box(x as int, y as int, r as int, i, j);
            }
        }
    }
}

impl Image {
    /// Paints every cell of the rasterized segment from `p1` to `p2` in
    /// the given color; cells outside the canvas are dropped.
    pub fn draw_line_segment(&mut self, p1: (i64, i64), p2: (i64, i64), color: Pixl)
        requires
            old(self)@.wf(),
            -0x200000000i64 <= p1.0 <= 0x200000000i64,
            -0x200000000i64 <= p1.1 <= 0x200000000i64,
            -0x200000000i64 <= p2.0 <= 0x200000000i64,
            -0x200000000i64 <= p2.1 <= 0x200000000i64,
        ensures
            final(self)@.wf(),
            final(self)@.same_size(old(self)@),
            forall|x: int, y: int|
                old(self)@.in_bounds(x, y) ==> #[trigger] final(self)@.pix(x, y) == if
                    crate::raster::on_segment(p1, p2, x, y) {
                    color
                } else {
                    old(self)@.pix(x, y)
                },
    {
        let ghost orig: ImageV = self@;
        let pts = crate::raster::line_points(p1, p2);
        let np: usize = pts.len();
        let mut m: usize = 0;
        while m < np
            invariant
                m <= np,
                np == pts@.len(),
                np == crate::raster::seg_steps(p1, p2) + 1,
                forall|k: int|
                    0 <= k < np ==> ((#[trigger] pts@[k]).0 == crate::raster::seg_point(
                        p1,
                        p2,
                        k,
                    ).0 && pts@[k].1 == crate::raster::seg_point(p1, p2, k).1),
                self@.wf(),
                self@.same_size(orig),
                orig.wf(),
                forall|x: int, y: int|
                    orig.in_bounds(x, y) ==> #[trigger] self@.pix(x, y) == if
                        crate::raster::on_segment_prefix(p1, p2, m as int, x, y) {
                        color
                    } else {
                        orig.pix(x, y)
                    },
            decreases np - m,
        {
            let pt = pts[m];
            let hit = pt.0 >= 0 && pt.1 >= 0 && (pt.0 as u64) < (self.width as u64) && (pt.1
                as u64) < (self.height as u64);
            if hit {
                let ghost pre: ImageV = self@;
                self.put_pixel(pt.0 as u32, pt.1 as u32, color);
                proof {
                    assert(self@ =~= (ImageV {
                        pixels: pre.pixels.update((pt.1 as int) * pre.width + (pt.0 as int), color),
                        ..pre
                    }));
                    lemma_put_pix(pre, pt.0 as int, pt.1 as int, color);
                }
            }
            proof {
                let mi = m as int;
                assert forall|x: int, y: int| orig.in_bounds(x, y) implies #[trigger] self@.pix(
                    x,
                    y,
                ) == if crate::raster::on_segment_prefix(p1, p2, mi + 1, x, y) {
                    color
                } else {
                    orig.pix(x, y)
                } by {
                    let sp = crate::raster::seg_point(p1, p2, mi);
                    if crate::raster::on_segment_prefix(p1, p2, mi + 1, x, y) {
                        let k = choose|k: int|
                            0 <= k < mi + 1 && crate::raster::seg_point(p1, p2, k) == (x, y);
                        if k < mi {
                            assert(crate::raster::on_segment_prefix(p1, p2, mi, x, y));
                        } else {
                            assert(sp == (x, y));
                        }
                    } else {
                        assert(!crate::raster::on_segment_prefix(p1, p2, mi, x, y)) by {
                            if crate::raster::on_segment_prefix(p1, p2, mi, x, y) {
                                let k = choose|k: int|
                                    0 <= k < mi && crate::raster::seg_point(p1, p2, k) == (x, y);
                                assert(0 <= k < mi + 1 && crate::raster::seg_point(p1, p2, k) == (
                                    x,
                                    y,
                                ));
                            }
                        }
                        assert(!(sp == (x, y))) by {
                            if sp == (x, y) {
                                assert(0 <= mi < mi + 1 && crate::raster::seg_point(p1, p2, mi)
                                    == (x, y));
                            }
                        }
                    }
                }
            }
            m = m + 1;
        }
        proof {
            assert forall|x: int, y: int| orig.in_bounds(x, y) implies #[trigger] self@.pix(x, y)
                == if crate::raster::on_segment(p1, p2, x, y) {
                color
            } else {
                orig.pix(x, y)
            } by {
                crate::raster::lemma_prefix_full(p1, p2, x, y);
            }
        }
    }
}

impl Image {
    /// Sets every pixel of the half-open rectangle `[x0, x1) x [y0, y1)`
    /// to `p`; parts outside the canvas are dropped.
    pub fn fill_rect(&mut self, x0: i64, y0: i64, x1: i64, y1: i64, p: Pixl)
        requires
            old(self)@.wf(),
            -0x400000000i64 <= x0 <= 0x400000000i64,
            -0x400000000i64 <= y0 <= 0x400000000i64,
            -0x400000000i64 <= x1 <= 0x400000000i64,
            -0x400000000i64 <= y1 <= 0x400000000i64,
        ensures
            final(self)@.wf(),
            final(self)@.same_size(old(self)@),
            forall|x: int, y: int|
                old(self)@.in_bounds(x, y) ==> #[trigger] final(self)@.pix(x, y) == if x0 <= x < x1
                    && y0 <= y < y1 {
                    p
                } else {
                    old(self)@.pix(x, y)
                },
    {
        let ghost orig: ImageV = self@;
        let w = self.width();
        let h = self.height();
        let sx: i64 = if x0 > 0 {
            x0
        } else {
            0
        };
        let ex: i64 = if x1 < w as i64 {
            x1
        } else {
            w as i64
        };
        let sy: i64 = if y0 > 0 {
            y0
        } else {
            0
        };
        let ey: i64 = if y1 < h as i64 {
            y1
        } else {
            h as i64
        };
        let mut j: i64 = sy;
        while j < ey
            invariant
                sy <= j <= if sy < ey { ey } else { sy },
                sx == if x0 > 0 { x0 } else { 0 },
                ex == if x1 < w { x1 } else { w as i64 },
                sy == if y0 > 0 { y0 } else { 0 },
                ey == if y1 < h { y1 } else { h as i64 },
                self@.wf(),
                self@.same_size(orig),
                orig.wf(),
                w == orig.width,
                h == orig.height,
                forall|x: int, y: int|
                    orig.in_bounds(x, y) ==> #[trigger] self@.pix(x, y) == if x0 <= x < x1 && y0
                        <= y < y1 && y < j {
                        p
                    } else {
                        orig.pix(x, y)
                    },
            decreases ey - j,
        {
            let mut i: i64 = sx;
            while i < ex
                invariant
                    sx <= i <= if sx < ex { ex } else { sx },
                    sy <= j < ey,
                    sx == if x0 > 0 { x0 } else { 0 },
                    ex == if x1 < w { x1 } else { w as i64 },
                    sy == if y0 > 0 { y0 } else { 0 },
                    ey == if y1 < h { y1 } else { h as i64 },
                    self@.wf(),
                    self@.same_size(orig),
                    orig.wf(),
                    w == orig.width,
                    h == orig.height,
                    forall|x: int, y: int|
                        orig.in_bounds(x, y) ==> #[trigger] self@.pix(x, y) == if x0 <= x < x1 && y0
                            <= y < y1 && (y < j || (y == j && x < i)) {
                            p
                        } else {
                            orig.pix(x, y)
                        },
                decreases ex - i,
            {
                let ghost pre: ImageV = self@;
                self.put_pixel(i as u32, j as u32, p);
                proof {
                    assert(self@ =~= (ImageV {
                        pixels: pre.pixels.update(j * pre.width + i, p),
                        ..pre
                    }));
                    lemma_put_pix(pre, i as int, j as int, p);
                }
                i = i + 1;
            }
            j = j + 1;
        }
    }
}

/// What decoding an encoded image yields, if it is well-formed: its
/// width, its height, and its raw RGBA bytes in row-major order.
pub uninterp spec fn png_decoding(bytes: Seq<u8>) -> Option<(u32, u32, Seq<u8>)>;

/// What encoding raw RGBA bytes of the given dimensions yields, if the
/// encoder accepts them.
pub uninterp spec fn png_encoding(raw: Seq<u8>, w: u32, h: u32) -> Option<Seq<u8>>;

/// The pixel at index `i` of a raw RGBA byte buffer.
pub open spec fn pixel_from_raw(raw: Seq<u8>, i: int) -> Pixl {
    Pixl { r: raw[4 * i], g: raw[4 * i + 1], b: raw[4 * i + 2], a: raw[4 * i + 3] }
}

/// The raw RGBA byte buffer of a pixel sequence.
pub open spec fn raw_of(pixels: Seq<Pixl>) -> Seq<u8> {
    Seq::new(
        (4 * pixels.len()) as nat,
        |j: int|
            {
                let p = pixels[j / 4];
                if j % 4 == 0 {
                    p.r
                } else if j % 4 == 1 {
                    p.g
                } else if j % 4 == 2 {
                    p.b
                } else {
                    p.a
                }
            },
    )
}

/// Relies on image::load_from_memory and DynamicImage::to_rgba8: decodes
/// an encoded image into its dimensions and raw RGBA bytes, which hold
/// four bytes per pixel. The result depends on the bytes alone.
#[verifier::external_body]
fn png_decode_raw(v: &Vec<u8>) -> (r: Option<(u32, u32, Vec<u8>)>)
    ensures
        r is None <==> png_decoding(v@) is None,
        r matches Some(t) ==> (png_decoding(v@) matches Some(d) && d.0 == t.0 && d.1 == t.1 && d.2
            == t.2@ && t.2@.len() == 4 * (t.0 as int) * (t.1 as int)),
{
    match image::load_from_memory(v.as_slice()) {
        Err(_) => None,
        Ok(img) => {
            let b = img.to_rgba8();
            let w = b.width();
            let h = b.height();
            Some((w, h, b.into_raw()))
        },
    }
}

/// Relies on image::write_buffer_with_format: encodes raw RGBA bytes of
/// the given dimensions as a PNG. The result depends on the bytes and
/// dimensions alone.
#[verifier::external_body]
fn png_encode_raw(raw: &Vec<u8>, w: u32, h: u32) -> (r: Option<Vec<u8>>)
    requires
        raw@.len() == 4 * (w as int) * (h as int),
    ensures
        r is None <==> png_encoding(raw@, w, h) is None,
        r matches Some(v) ==> (png_encoding(raw@, w, h) matches Some(e) && v@ == e),
{
    let mut buf = std::io::BufWriter::new(std::io::Cursor::new(Vec::new()));
    match image::write_buffer_with_format(
        &mut buf,
        raw.as_slice(),
        w,
        h,
        image::ColorType::Rgba8,
        image::ImageFormat::Png,
    ) {
        Err(_) => None,
        Ok(_) => match buf.into_inner() {
            Err(_) => None,
            Ok(c) => Some(c.into_inner()),
        },
    }
}

impl Image {
    /// Decodes an encoded image into a canvas; the canvas holds exactly
    /// the decoded pixels.
    pub fn from_png(v: Vec<u8>) -> (r: Option<Image>)
        ensures
            r is None <==> png_decoding(v@) is None,
            r matches Some(img) ==> (png_decoding(v@) matches Some(d) && img@.wf() && img@.width
                == d.0 && img@.height == d.1 && forall|i: int|
                0 <= i < img@.pixels.len() ==> img@.pixels[i] == pixel_from_raw(d.2, i)),
    {
        match png_decode_raw(&v) {
            None => None,
            Some((w, h, raw)) => {
                let ghost d: Seq<u8> = raw@;
                let total: usize = raw.len() / 4;
                proof {
                    assert(4 * ((w as int) * (h as int)) == 4 * (w as int) * (h as int))
                        by (nonlinear_arith);
                    vstd::arithmetic::div_mod::lemma_div_multiples_vanish(
                        (w as int) * (h as int),
                        4,
                    );
                    assert(total == (w as int) * (h as int));
                }
                let rn: usize = raw.len();
                let mut pixels: Vec<Pixl> = Vec::new();
                let mut i: usize = 0;
                while i < total
                    invariant
                        i <= total,
                        d == raw@,
                        raw@.len() == 4 * total,
                        rn == raw@.len(),
                        pixels@.len() == i,
                        forall|j: int| 0 <= j < i ==> pixels@[j] == pixel_from_raw(d, j),
                    decreases total - i,
                {
                    let p = Pixl::new_with_alpha(
                        raw[4 * i],
                        raw[4 * i + 1],
                        raw[4 * i + 2],
                        raw[4 * i + 3],
                    );
                    pixels.push(p);
                    i = i + 1;
                }
                let img = Image { width: w, height: h, pixels };
                Some(img)
            },
        }
    }

    /// Encodes the canvas's pixels as a PNG; the bytes handed to the
    /// encoder are exactly the canvas's raw RGBA bytes.
    pub fn as_png(&self) -> (r: Option<Vec<u8>>)
        requires
            self@.wf(),
        ensures
            r is None <==> png_encoding(raw_of(self@.pixels), self@.width as u32, self@.height
                as u32) is None,
            r matches Some(v) ==> png_encoding(
                raw_of(self@.pixels),
                self@.width as u32,
                self@.height as u32,
            ) == Some(v@),
    {
        let total: usize = self.pixels.len();
        let mut raw: Vec<u8> = Vec::new();
        let mut i: usize = 0;
        while i < total
            invariant
                i <= total,
                total == self.pixels@.len(),
                raw@.len() == 4 * i,
                forall|j: int| 0 <= j < 4 * i ==> raw@[j] == raw_of(self.pixels@)[j],
            decreases total - i,
        {
            let p = self.pixels[i];
            raw.push(p.r);
            raw.push(p.g);
            raw.push(p.b);
            raw.push(p.a);
            proof {
                let ii = i as int;
                assert forall|j: int| 4 * ii <= j < 4 * ii + 4 implies raw@[j] == raw_of(
                    self.pixels@,
                )[j] by {
                    vstd::arithmetic::div_mod::lemma_fundamental_div_mod_converse(
                        j,
                        4,
                        ii,
                        j - 4 * ii,
                    );
                }
            }
            i = i + 1;
        }
        proof {
            assert(raw@ =~= raw_of(self.pixels@));
            assert(4 * ((self@.width as int) * (self@.height as int)) == 4 * (self@.width as int) * (
            self@.height as int)) by (nonlinear_arith);
        }
        png_encode_raw(&raw, self.width, self.height)
    }
}

impl Clone for Image {
    /// An immutable snapshot: the copy has the same size and pixels.
    fn clone(&self) -> (r: Self)
        ensures
            r@ == self@,
    {
        let n: usize = self.pixels.len();
        let mut pixels: Vec<Pixl> = Vec::new();
        let mut i: usize = 0;
        while i < n
            invariant
                i <= n,
                n == self.pixels@.len(),
                pixels@.len() == i,
                forall|j: int| 0 <= j < i ==> pixels@[j] == self.pixels@[j],
            decreases n - i,
        {
            pixels.push(self.pixels[i]);
            i = i + 1;
        }
        let r = Image { width: self.width, height: self.height, pixels };
        proof {
            assert(r@.pixels =~= self@.pixels);
            assert(r@ =~= self@);
        }
        r
    }
}

/// Cell `(i, j)` comes strictly before cell `(x, y)` in row-major order.
pub open spec fn before(i: int, j: int, x: int, y: int) -> bool {
    j < y || (j == y && i < x)
}

/// Point `(x, y)` lies on the filled disc of radius `r` around `(cx, cy)`:
/// its integer-truncated Euclidean distance from the center is at most `r`.
pub open spec fn in_circle(cx: int, cy: int, r: int, x: int, y: int) -> bool {
    (x - cx) * (x - cx) + (y - cy) * (y - cy) < (r + 1) * (r + 1)
}

/// Writing one in-range pixel changes that pixel and no other.
pub proof fn lemma_put_pix(v: ImageV, x: int, y: int, p: Pixl)
    requires
        v.wf(),
        v.in_bounds(x, y),
    ensures
        forall|i: int, j: int|
            v.in_bounds(i, j) ==> #[trigger] (ImageV {
                pixels: v.pixels.update(y * v.width + x, p),
                ..v
            }).pix(i, j) == if i == x && j == y {
                p
            } else {
                v.pix(i, j)
            },
{
    let w = v.width as int;
    let h = v.height as int;
    lemma_index_bound(x, y, w, h);
    assert forall|i: int, j: int| v.in_bounds(i, j) implies #[trigger] (ImageV {
        pixels: v.pixels.update(y * v.width + x, p),
        ..v
    }).pix(i, j) == if i == x && j == y {
        p
    } else {
        v.pix(i, j)
    } by {
        lemma_index_bound(i, j, w, h);
        if i == x && j == y {
        } else {
            assert(j * w + i != y * w + x) by (nonlinear_arith)
                requires
                    0 <= i < w,
                    0 <= j < h,
                    0 <= x < w,
                    0 <= y < h,
                    !(i == x && j == y),
            ;
        }
    }
}

} // verus!
