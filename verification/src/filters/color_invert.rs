//! Inverts the color channels of every pixel.
use vstd::prelude::*;

use crate::filters::Error;
use crate::images::{lemma_put_pix, before, Image, ImageV, Pixl};

verus! {

/// Replaces each pixel's r, g and b by `255 - channel`, leaving alpha
/// untouched. Applying it twice restores the canvas exactly.
#[derive(Clone, Copy, Debug, PartialEq, Eq, Structural)]
pub struct ColorInvert {}

/// What one application of the filter leaves behind: `post` is `pre`
/// with every pixel's color channels inverted.
pub open spec fn color_invert_step(pre: ImageV, post: ImageV) -> bool {
    &&& post.wf()
&&& post.same_size(pre)
&&& forall|x: int, y: int|
    pre.in_bounds(x, y) ==> #[trigger] post.pix(x, y) == pre.pix(x, y).inverted()
}

impl ColorInvert {
    pub fn new() -> (f: ColorInvert)
        ensures
            f == (ColorInvert {  }),
    {
        ColorInvert {  }
    }

    /// Inversion is meaningful on any canvas.
    pub open spec fn valid(self, w: int, h: int) -> bool {
        true
    }

    pub fn validate(&self, viewbox: (u32, u32)) -> (r: Result<(), Error>)
        ensures
            r is Ok,
            r is Ok <==> self.valid(viewbox.0 as int, viewbox.1 as int),
    {
        Ok(())
    }

    pub fn apply(&self, i: &mut Image) -> (r: Result<(), Error>)
        requires
            old(i)@.wf(),
        ensures
            r is Ok,
            color_invert_step(old(i)@, final(i)@),
    {
        let ghost orig: ImageV = i@;
        let w = i.width();
        let h = i.height();
        let mut y: u32 = 0;
        while y < h
            invariant
                y <= h,
                i@.wf(),
                i@.same_size(orig),
                orig.wf(),
                w == orig.width,
                h == orig.height,
                forall|a: int, b: int|
                    orig.in_bounds(a, b) ==> #[trigger] i@.pix(a, b) == if b < y {
                        orig.pix(a, b).inverted()
                    } else {
                        orig.pix(a, b)
                    },
            decreases h - y,
        {
            let mut x: u32 = 0;
            while x < w
                invariant
                    x <= w,
                    y < h,
                    i@.wf(),
                    i@.same_size(orig),
                    orig.wf(),
                    w == orig.width,
                    h == orig.height,
                    forall|a: int, b: int|
                        orig.in_bounds(a, b) ==> #[trigger] i@.pix(a, b) == if before(
                            a,
                            b,
                            x as int,
                            y as int,
                        ) {
                            orig.pix(a, b).inverted()
                        } else {
                            orig.pix(a, b)
                        },
                decreases w - x,
            {
                let mut p = i.get_pixel(x, y);
                p.invert();
                let ghost pre: ImageV = i@;
                i.put_pixel(x, y, p);
                proof {
                    assert(i@ =~= (ImageV {
                        pixels: pre.pixels.update(y * pre.width + x, p),
                        ..pre
                    }));
                    lemma_put_pix(pre, x as int, y as int, p);
                }
                x = x + 1;
            }
            y = y + 1;
        }
        Ok(())
    }
}

/// A pixel inverted twice is itself: inversion is an involution on the
/// color channels and never alters alpha.
pub proof fn lemma_invert_involution(p: Pixl)
    ensures
        p.inverted().inverted() == p,
        p.inverted().a == p.a,
{
}

/// Applying ColorInvert twice reproduces the original canvas exactly:
/// if `b` is `a` inverted pixel for pixel and `c` is `b` inverted pixel
/// for pixel, then `c` is `a`.
pub proof fn lemma_color_invert_involution(a: ImageV, b: ImageV, c: ImageV)
    requires
        a.wf(),
        b.wf(),
        c.wf(),
        b.same_size(a),
        c.same_size(b),
        forall|x: int, y: int| a.in_bounds(x, y) ==> #[trigger] b.pix(x, y) == a.pix(x, y).inverted(),
        forall|x: int, y: int| b.in_bounds(x, y) ==> #[trigger] c.pix(x, y) == b.pix(x, y).inverted(),
    ensures
        c == a,
{
    assert forall|x: int, y: int| c.in_bounds(x, y) implies c.pix(x, y) == a.pix(x, y) by {
        assert(b.pix(x, y) == a.pix(x, y).inverted());
        assert(c.pix(x, y) == b.pix(x, y).inverted());
    }
    crate::images::lemma_pointwise_eq(c, a);
}

} // verus!
