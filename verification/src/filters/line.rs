//! A straight thick line through the canvas.
use vstd::prelude::*;

use crate::filters::{Error, FilterKind, SerdeColor};
use crate::images::{Image, ImageV, Pixl};
use crate::raster::{seg_point, seg_steps};

verus! {

/// The square brush of half side `half` stamped at cell `c` covers `(x, y)`.
pub open spec fn sq_covers(c: (int, int), half: int, x: int, y: int) -> bool {
    c.0 - half <= x < c.0 + half && c.1 - half <= y < c.1 + half
}

/// `(x, y)` is covered by the brush stamped at one of the first `m` cells
/// of the rasterized segment from `a` to `b`.
pub open spec fn brush_prefix(
    a: (i64, i64),
    b: (i64, i64),
    half: int,
    m: int,
    x: int,
    y: int,
) -> bool {
    exists|k: int| 0 <= k < m && sq_covers(seg_point(a, b, k), half, x, y)
}

/// `(x, y)` is covered by the brush stamped along the whole segment.
pub open spec fn brush_covers(a: (i64, i64), b: (i64, i64), half: int, x: int, y: int) -> bool {
    brush_prefix(a, b, half, seg_steps(a, b) + 1, x, y)
}

/// What one application of the filter leaves behind: every pixel of the
/// brushed segment painted in the filter's color, every other pixel
/// untouched.
pub open spec fn line_step(l: Line, pre: ImageV, post: ImageV) -> bool {
    &&& post.wf()
&&& post.same_size(pre)
&&& forall|x: int, y: int|
    pre.in_bounds(x, y) ==> #[trigger] post.pix(x, y) == if brush_covers(
        l.seg_a(pre.width as int, pre.height as int),
        l.seg_b(pre.width as int, pre.height as int),
        l.thickness as int / 2,
        x,
        y,
    ) {
        (Pixl { r: l.color.r, g: l.color.g, b: l.color.b, a: 255u8 })
    } else {
        pre.pix(x, y)
    }
}

/// A point in canvas coordinates, given as signed offsets.
#[derive(Clone, Copy, Debug, PartialEq, Eq, Structural)]
pub struct Pt {
    pub x: i32,
    pub y: i32,
}

/// Draws a colored segment between two points given as offsets from the
/// canvas center, rasterized with a square brush of side about `thickness`.
#[derive(Clone, Copy, Debug, PartialEq, Eq, Structural)]
pub struct Line {
    pub p1: Pt,
    pub p2: Pt,
    pub thickness: i32,
    pub color: SerdeColor,
}

impl Line {
    /// A thickness below 1 is floored to 1 at construction.
    pub fn new(p1: (i32, i32), p2: (i32, i32), thickness: i32, color: SerdeColor) -> (f: Line)
        ensures
            f == (Line {
                p1: Pt { x: p1.0, y: p1.1 },
                p2: Pt { x: p2.0, y: p2.1 },
                thickness: if thickness < 1 { 1i32 } else { thickness },
                color,
            }),
    {
        Line {
            p1: Pt { x: p1.0, y: p1.1 },
            p2: Pt { x: p2.0, y: p2.1 },
            thickness: if thickness < 1 { 1 } else { thickness },
            color,
        }
    }

    /// The endpoints must differ, the thickness must be at least 1, and
    /// each endpoint's absolute offset from the center must stay below the
    /// corresponding canvas dimension.
    pub open spec fn valid(self, w: int, h: int) -> bool {
        &&& self.thickness >= 1
    &&& self.p1 != self.p2
    &&& -w < self.p1.x < w
    &&& -h < self.p1.y < h
    &&& -w < self.p2.x < w
    &&& -h < self.p2.y < h
    }

    pub fn validate(&self, viewbox: (u32, u32)) -> (r: Result<(), Error>)
        ensures
            r is Ok <==> self.valid(viewbox.0 as int, viewbox.1 as int),
            r is Err ==> (r matches Err(e) && (e is InvalidParameter || e is OutOfRangeGeometry)
                && e.kind() == FilterKind::Line),
    {
        let w = viewbox.0 as i64;
        let h = viewbox.1 as i64;
        if self.thickness < 1 {
            return Err(
                Error::InvalidParameter {
                    filter: FilterKind::Line,
                    detail: "thickness must be greater than 1",
                },
            );
        }
        if self.p1.x == self.p2.x && self.p1.y == self.p2.y {
            return Err(
                Error::InvalidParameter {
                    filter: FilterKind::Line,
                    detail: "p1 and p2 must be different",
                },
            );
        }
        if self.p1.x as i64 >= w || -(self.p1.x as i64) >= w || self.p1.y as i64 >= h || -(self.p1.y
            as i64) >= h || self.p2.x as i64 >= w || -(self.p2.x as i64) >= w || self.p2.y as i64
            >= h || -(self.p2.y as i64) >= h {
            return Err(
                Error::OutOfRangeGeometry {
                    filter: FilterKind::Line,
                    detail: "p1 and p2 must be within the viewbox",
                },
            );
        }
        Ok(())
    }

    /// The segment's start in canvas coordinates: the canvas center
    /// plus the first offset.
    pub open spec fn seg_a(self, w: int, h: int) -> (i64, i64) {
        (((self.p1.x as int) + w / 2) as i64, ((self.p1.y as int) + h / 2) as i64)
    }

    /// The segment's end in canvas coordinates: the canvas center plus
    /// the second offset.
    pub open spec fn seg_b(self, w: int, h: int) -> (i64, i64) {
        (((self.p2.x as int) + w / 2) as i64, ((self.p2.y as int) + h / 2) as i64)
    }

    /// Moves both endpoints to the canvas center, rasterizes the
    /// segment between them, and stamps a square brush of half side
    /// `thickness / 2` at every cell, clipped to the canvas.
    pub fn apply(&self, i: &mut Image) -> (r: Result<(), Error>)
        requires
            old(i)@.wf(),
            self.valid(old(i)@.width as int, old(i)@.height as int),
        ensures
            r is Ok,
            line_step(*self, old(i)@, final(i)@),
    {
        let ghost orig: ImageV = i@;
        let pixl = self.color.to_pixl();
        let w = i.width();
        let h = i.height();
        let ax: i64 = self.p1.x as i64 + (w / 2) as i64;
        let ay: i64 = self.p1.y as i64 + (h / 2) as i64;
        let bx: i64 = self.p2.x as i64 + (w / 2) as i64;
        let by: i64 = self.p2.y as i64 + (h / 2) as i64;
        let ghost a: (i64, i64) = self.seg_a(orig.width as int, orig.height as int);
        let ghost b: (i64, i64) = self.seg_b(orig.width as int, orig.height as int);
        proof {
            assert(a == (ax, ay));
            assert(b == (bx, by));
        }
        let half: i64 = (self.thickness / 2) as i64;
        let pts = crate::raster::line_points((ax, ay), (bx, by));
        let np: usize = pts.len();
        let mut m: usize = 0;
        while m < np
            invariant
                m <= np,
                np == pts@.len(),
                np == seg_steps(a, b) + 1,
                a == (ax, ay),
                b == (bx, by),
                0 <= half,
                half == self.thickness as int / 2,
                pixl == (Pixl { r: self.color.r, g: self.color.g, b: self.color.b, a: 255u8 }),
                -0x200000000i64 <= ax <= 0x200000000i64,
                -0x200000000i64 <= ay <= 0x200000000i64,
                -0x200000000i64 <= bx <= 0x200000000i64,
                -0x200000000i64 <= by <= 0x200000000i64,
                half <= 0x200000000i64,
                forall|k: int|
                    0 <= k < np ==> ((#[trigger] pts@[k]).0 == seg_point(a, b, k).0 && pts@[k].1
                        == seg_point(a, b, k).1),
                forall|k: int|
                    0 <= k < np ==> -0x200000000i64 <= (#[trigger] pts@[k]).0 <= 0x200000000i64
                        && -0x200000000i64 <= pts@[k].1 <= 0x200000000i64,
                i@.wf(),
                i@.same_size(orig),
                orig.wf(),
                forall|x: int, y: int|
                    orig.in_bounds(x, y) ==> #[trigger] i@.pix(x, y) == if brush_prefix(
                        a,
                        b,
                        half as int,
                        m as int,
                        x,
                        y,
                    ) {
                        pixl
                    } else {
                        orig.pix(x, y)
                    },
            decreases np - m,
        {
            let pt = pts[m];
            proof {
                assert(pts@[m as int] == pt);
                assert(-0x200000000i64 <= pt.0 <= 0x200000000i64 && -0x200000000i64 <= pt.1
                    <= 0x200000000i64);
            }
            let ghost pre: ImageV = i@;
            i.fill_rect(pt.0 - half, pt.1 - half, pt.0 + half, pt.1 + half, pixl);
            proof {
                let mi = m as int;
                let sp = seg_point(a, b, mi);
                assert(sp == (pt.0 as int, pt.1 as int));
                assert forall|x: int, y: int| orig.in_bounds(x, y) implies #[trigger] i@.pix(x, y)
                    == if brush_prefix(a, b, half as int, mi + 1, x, y) {
                    pixl
                } else {
                    orig.pix(x, y)
                } by {
                    if brush_prefix(a, b, half as int, mi + 1, x, y) {
                        let k = choose|k: int|
                            0 <= k < mi + 1 && sq_covers(seg_point(a, b, k), half as int, x, y);
                        if k < mi {
                            assert(brush_prefix(a, b, half as int, mi, x, y));
                        } else {
                            assert(sq_covers(sp, half as int, x, y));
                        }
                    } else {
                        assert(!brush_prefix(a, b, half as int, mi, x, y)) by {
                            if brush_prefix(a, b, half as int, mi, x, y) {
                                let k = choose|k: int|
                                    0 <= k < mi && sq_covers(seg_point(a, b, k), half as int, x, y);
                                assert(0 <= k < mi + 1 && sq_covers(
                                    seg_point(a, b, k),
                                    half as int,
                                    x,
                                    y,
                                ));
                            }
                        }
                        assert(!sq_covers(sp, half as int, x, y)) by {
                            if sq_covers(sp, half as int, x, y) {
                                assert(0 <= mi < mi + 1 && sq_covers(
                                    seg_point(a, b, mi),
                                    half as int,
                                    x,
                                    y,
                                ));
                            }
                        }
                    }
                }
            }
            m = m + 1;
        }
        Ok(())
    }
}

} // verus!
