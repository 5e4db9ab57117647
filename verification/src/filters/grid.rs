//! Paints a black grid over the canvas.
use vstd::prelude::*;

use crate::filters::{Error, FilterKind};
use crate::images::{lemma_put_pix, before, Image, ImageV, Pixl};

verus! {

/// Paints every row whose y is a multiple of `y_gap` and every column
/// whose x is a multiple of `x_gap` entirely black.
#[derive(Clone, Copy, Debug, PartialEq, Eq, Structural)]
pub struct Grid {
    pub y_gap: u32,
    pub x_gap: u32,
}

/// The pixel `(x, y)` lies on a grid line of gaps `(x_gap, y_gap)`.
pub open spec fn on_grid(x_gap: int, y_gap: int, x: int, y: int) -> bool {
    x % x_gap == 0 || y % y_gap == 0
}

/// What one application of the filter leaves behind: every grid-line
/// pixel black, every other pixel untouched.
pub open spec fn grid_step(g: Grid, pre: ImageV, post: ImageV) -> bool {
    &&& post.wf()
&&& post.same_size(pre)
&&& forall|x: int, y: int|
    pre.in_bounds(x, y) ==> #[trigger] post.pix(x, y) == if on_grid(
        g.x_gap as int,
        g.y_gap as int,
        x,
        y,
    ) {
        Pixl::black_spec()
    } else {
        pre.pix(x, y)
    }
}

impl Grid {
    pub fn new(x_gap: u32, y_gap: u32) -> (f: Grid)
        ensures
            f == (Grid { x_gap, y_gap }),
    {
        Grid { x_gap, y_gap }
    }

    /// Both gaps must be positive and strictly smaller than both canvas
    /// dimensions.
    pub open spec fn valid(self, w: int, h: int) -> bool {
        self.x_gap > 0 && self.y_gap > 0 && self.x_gap < w && self.x_gap < h && self.y_gap < w
            && self.y_gap < h
    }

    pub fn validate(&self, viewbox: (u32, u32)) -> (r: Result<(), Error>)
        ensures
            r is Ok <==> self.valid(viewbox.0 as int, viewbox.1 as int),
            r is Err ==> (r matches Err(e) && e is OutOfRangeGeometry && e.kind()
                == FilterKind::Grid),
    {
        if self.x_gap == 0 || self.y_gap == 0 || self.x_gap >= viewbox.0 || self.x_gap >= viewbox.1
            || self.y_gap >= viewbox.0 || self.y_gap >= viewbox.1 {
            return Err(
                Error::OutOfRangeGeometry {
                    filter: FilterKind::Grid,
                    detail: "x_gap and y_gap must be greater than 0 and must be smaller than the viewbox",
                },
            );
        }
        Ok(())
    }

    pub fn apply(&self, i: &mut Image) -> (r: Result<(), Error>)
        requires
            old(i)@.wf(),
            self.x_gap > 0,
            self.y_gap > 0,
        ensures
            r is Ok,
            grid_step(*self, old(i)@, final(i)@),
    {
        let ghost orig: ImageV = i@;
        let w = i.width();
        let h = i.height();
        let xg = self.x_gap;
        let yg = self.y_gap;
        let mut y: u32 = 0;
        while y < h
            invariant
                y <= h,
                i@.wf(),
                i@.same_size(orig),
                orig.wf(),
                w == orig.width,
                h == orig.height,
                xg == self.x_gap,
                yg == self.y_gap,
                xg > 0,
                yg > 0,
                forall|a: int, b: int|
                    orig.in_bounds(a, b) ==> #[trigger] i@.pix(a, b) == if b < y && on_grid(
                        xg as int,
                        yg as int,
                        a,
                        b,
                    ) {
                        Pixl::black_spec()
                    } else {
                        orig.pix(a, b)
                    },
            decreases h - y,
        {
            let mut x: u32 = 0;
            while x < w
                invariant
                    x <= w,
                    y < h,
                    i@.wf(),
                    i@.same_size(orig),
                    orig.wf(),
                    w == orig.width,
                    h == orig.height,
                    xg == self.x_gap,
                    yg == self.y_gap,
                    xg > 0,
                    yg > 0,
                    forall|a: int, b: int|
                        orig.in_bounds(a, b) ==> #[trigger] i@.pix(a, b) == if (before(
                            a,
                            b,
                            x as int,
                            y as int,
                        ) && on_grid(xg as int, yg as int, a, b)) {
                            Pixl::black_spec()
                        } else {
                            orig.pix(a, b)
                        },
                decreases w - x,
            {
                if x % xg == 0 || y % yg == 0 {
                    let ghost pre: ImageV = i@;
                    let p = Pixl::black();
                    i.put_pixel(x, y, p);
                    proof {
                        assert(i@ =~= (ImageV {
                            pixels: pre.pixels.update(y * pre.width + x, p),
                            ..pre
                        }));
                        lemma_put_pix(pre, x as int, y as int, p);
                    }
                }
                x = x + 1;
            }
            y = y + 1;
        }
        Ok(())
    }
}

} // verus!
