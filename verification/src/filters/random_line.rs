//! A randomly placed, randomly colored straight stroke.
use vstd::prelude::*;

use crate::filters::Error;
use crate::images::{Image, ImageV, Pixl};
use crate::raster::on_segment;
use crate::rng::{rand_bool, rand_range_u32};

verus! {

/// A stroke color is bright — every color channel at least 100 — and
/// fully opaque.
pub open spec fn stroke_color(c: Pixl) -> bool {
    100 <= c.r && 100 <= c.g && 100 <= c.b && c.a == 255
}

/// The segment `o` of a stroke of parallel unit-width segments: each
/// further segment lies one cell across the stroke — one cell down for a
/// near-horizontal stroke, one cell right for a near-vertical one.
pub open spec fn stroke_seg(is_h: bool, a: (i64, i64), b: (i64, i64), o: int) -> (
    (i64, i64),
    (i64, i64),
) {
    if is_h {
        ((a.0, (a.1 + o) as i64), (b.0, (b.1 + o) as i64))
    } else {
        (((a.0 + o) as i64, a.1), ((b.0 + o) as i64, b.1))
    }
}

/// `(x, y)` lies on one of the first `m` parallel segments of the stroke.
pub open spec fn stroke_prefix(
    is_h: bool,
    a: (i64, i64),
    b: (i64, i64),
    m: int,
    x: int,
    y: int,
) -> bool {
    exists|o: int|
        0 <= o < m && on_segment(stroke_seg(is_h, a, b, o).0, stroke_seg(is_h, a, b, o).1, x, y)
}

/// `(x, y)` lies on a stroke of `t` parallel segments from `a` to `b`.
pub open spec fn stroke_covers(
    is_h: bool,
    a: (i64, i64),
    b: (i64, i64),
    t: int,
    x: int,
    y: int,
) -> bool {
    stroke_prefix(is_h, a, b, t, x, y)
}

/// `res` is `orig` with the stroke painted over it in color `c`.
pub open spec fn stroke_result(
    orig: ImageV,
    res: ImageV,
    c: Pixl,
    is_h: bool,
    a: (i64, i64),
    b: (i64, i64),
    t: int,
) -> bool {
    &&& res.wf()
&&& res.same_size(orig)
&&& forall|x: int, y: int|
    orig.in_bounds(x, y) ==> #[trigger] res.pix(x, y) == if stroke_covers(is_h, a, b, t, x, y) {
        c
    } else {
        orig.pix(x, y)
    }
}

/// The endpoints a stroke across a `w` by `h` canvas may be drawn from:
/// near-horizontal strokes run from the left half to the right half,
/// near-vertical ones from the top half to the bottom half.
pub open spec fn stroke_ends_in_range(
    w: int,
    h: int,
    is_h: bool,
    a: (i64, i64),
    b: (i64, i64),
) -> bool {
    if is_h {
        0 <= a.0 < w / 2 && 0 <= a.1 < h && w / 2 <= b.0 < w && 0 <= b.1 < h
    } else {
        0 <= a.0 < w && 0 <= a.1 < h / 2 && 0 <= b.0 < w && h / 2 <= b.1 < h
    }
}

/// Paints `t` parallel unit-width segments from `a` to `b`, one cell
/// apart across the stroke, all in the same color; cells outside the
/// canvas are dropped.
pub fn draw_stroke(img: &mut Image, is_h: bool, a: (i64, i64), b: (i64, i64), t: u32, color: Pixl)
    requires
        old(img)@.wf(),
        0 <= a.0 <= 0xFFFFFFFFi64,
        0 <= a.1 <= 0xFFFFFFFFi64,
        0 <= b.0 <= 0xFFFFFFFFi64,
        0 <= b.1 <= 0xFFFFFFFFi64,
        t <= 4,
    ensures
        stroke_result(old(img)@, final(img)@, color, is_h, a, b, t as int),
{
    let ghost orig: ImageV = img@;
    let mut o: u32 = 0;
    while o < t
        invariant
            o <= t,
            t <= 4,
            img@.wf(),
            img@.same_size(orig),
            orig.wf(),
            0 <= a.0 <= 0xFFFFFFFFi64,
            0 <= a.1 <= 0xFFFFFFFFi64,
            0 <= b.0 <= 0xFFFFFFFFi64,
            0 <= b.1 <= 0xFFFFFFFFi64,
            forall|x: int, y: int|
                orig.in_bounds(x, y) ==> #[trigger] img@.pix(x, y) == if stroke_prefix(
                    is_h,
                    a,
                    b,
                    o as int,
                    x,
                    y,
                ) {
                    color
                } else {
                    orig.pix(x, y)
                },
        decreases t - o,
    {
        let off: i64 = o as i64;
        let p1: (i64, i64);
        let p2: (i64, i64);
        if is_h {
            p1 = (a.0, a.1 + off);
            p2 = (b.0, b.1 + off);
        } else {
            p1 = (a.0 + off, a.1);
            p2 = (b.0 + off, b.1);
        }
        let ghost pre: ImageV = img@;
        img.draw_line_segment(p1, p2, color);
        proof {
            let oi = o as int;
            assert(stroke_seg(is_h, a, b, oi) == (p1, p2));
            assert forall|x: int, y: int| orig.in_bounds(x, y) implies #[trigger] img@.pix(x, y)
                == if stroke_prefix(is_h, a, b, oi + 1, x, y) {
                color
            } else {
                orig.pix(x, y)
            } by {
                if stroke_prefix(is_h, a, b, oi + 1, x, y) {
                    let k = choose|k: int|
                        0 <= k < oi + 1 && on_segment(
                            stroke_seg(is_h, a, b, k).0,
                            stroke_seg(is_h, a, b, k).1,
                            x,
                            y,
                        );
                    if k < oi {
                        assert(stroke_prefix(is_h, a, b, oi, x, y));
                    } else {
                        assert(on_segment(p1, p2, x, y));
                    }
                } else {
                    assert(!stroke_prefix(is_h, a, b, oi, x, y)) by {
                        if stroke_prefix(is_h, a, b, oi, x, y) {
                            let k = choose|k: int|
                                0 <= k < oi && on_segment(
                                    stroke_seg(is_h, a, b, k).0,
                                    stroke_seg(is_h, a, b, k).1,
                                    x,
                                    y,
                                );
                            assert(0 <= k < oi + 1 && on_segment(
                                stroke_seg(is_h, a, b, k).0,
                                stroke_seg(is_h, a, b, k).1,
                                x,
                                y,
                            ));
                        }
                    }
                    assert(!on_segment(p1, p2, x, y)) by {
                        if on_segment(p1, p2, x, y) {
                            assert(0 <= oi < oi + 1 && on_segment(
                                stroke_seg(is_h, a, b, oi).0,
                                stroke_seg(is_h, a, b, oi).1,
                                x,
                                y,
                            ));
                        }
                    }
                }
            }
        }
        o = o + 1;
    }
}

/// What one application of the filter leaves behind: one stroke of 2 or
/// 3 parallel segments, with a bright opaque color and in-range
/// endpoints, painted over `pre`; a canvas narrower or shorter than 2
/// pixels has no room for a stroke and is unchanged.
pub open spec fn random_line_step(pre: ImageV, post: ImageV) -> bool {
    &&& post.wf()
&&& post.same_size(pre)
&&& forall|x: int, y: int|
    pre.in_bounds(x, y) ==> #[trigger] post.pix(x, y) == pre.pix(x, y) || stroke_color(
        post.pix(x, y),
    )
&&& pre.width < 2 || pre.height < 2 ==> post == pre
&&& pre.width >= 2 && pre.height >= 2 ==> exists|
    c: Pixl,
    is_h: bool,
    a: (i64, i64),
    b: (i64, i64),
    t: int,
|
    #[trigger] stroke_result(pre, post, c, is_h, a, b, t) && stroke_color(c) && 2 <= t <= 3
        && stroke_ends_in_range(pre.width as int, pre.height as int, is_h, a, b)
}

/// Draws one near-horizontal or near-vertical stroke with random
/// endpoints, a random bright color and a random thickness of 2 or 3,
/// built from parallel unit-width segments one cell apart across the
/// stroke.
#[derive(Clone, Copy, Debug, PartialEq, Eq, Structural)]
pub struct RandomLine {}

impl RandomLine {
    pub fn new() -> (f: RandomLine)
        ensures
            f == (RandomLine {  }),
    {
        RandomLine {  }
    }

    /// A random stroke fits any canvas.
    pub open spec fn valid(self, w: int, h: int) -> bool {
        true
    }

    pub fn validate(&self, viewbox: (u32, u32)) -> (r: Result<(), Error>)
        ensures
            r is Ok,
            r is Ok <==> self.valid(viewbox.0 as int, viewbox.1 as int),
    {
        Ok(())
    }

    /// Paints one stroke with a bright opaque color, in-range endpoints
    /// and a thickness of 2 or 3. A canvas narrower or shorter than 2
    /// pixels has no room for a stroke and is left unchanged.
    pub fn apply(&self, img: &mut Image) -> (r: Result<(), Error>)
        requires
            old(img)@.wf(),
        ensures
            r is Ok,
            random_line_step(old(img)@, final(img)@),
    {
        let ghost orig: ImageV = img@;
        let w = img.width();
        let h = img.height();
        if w < 2 || h < 2 {
            return Ok(());
        }
        let red = rand_range_u32(100, 256) as u8;
        let green = rand_range_u32(100, 256) as u8;
        let blue = rand_range_u32(100, 256) as u8;
        let color = Pixl::new_with_alpha(red, green, blue, 255);
        let is_h = rand_bool();
        let xa: i64;
        let ya: i64;
        let xb: i64;
        let yb: i64;
        if is_h {
            xa = rand_range_u32(0, w / 2) as i64;
            ya = rand_range_u32(0, h) as i64;
            xb = rand_range_u32(w / 2, w) as i64;
            yb = rand_range_u32(0, h) as i64;
        } else {
            xa = rand_range_u32(0, w) as i64;
            ya = rand_range_u32(0, h / 2) as i64;
            xb = rand_range_u32(0, w) as i64;
            yb = rand_range_u32(h / 2, h) as i64;
        }
        let thickness = rand_range_u32(2, 4);
        draw_stroke(img, is_h, (xa, ya), (xb, yb), thickness, color);
        proof {
            assert(stroke_result(
                orig,
                img@,
                color,
                is_h,
                (xa, ya),
                (xb, yb),
                thickness as int,
            ));
            assert(stroke_ends_in_range(
                orig.width as int,
                orig.height as int,
                is_h,
                (xa, ya),
                (xb, yb),
            ));
            assert forall|x: int, y: int| orig.in_bounds(x, y) implies #[trigger] img@.pix(x, y)
                == orig.pix(x, y) || stroke_color(img@.pix(x, y)) by {
                assert(img@.pix(x, y) == if stroke_covers(
                    is_h,
                    (xa, ya),
                    (xb, yb),
                    thickness as int,
                    x,
                    y,
                ) {
                    color
                } else {
                    orig.pix(x, y)
                });
            }
        }
        Ok(())
    }
}

} // verus!
