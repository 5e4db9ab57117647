//! Random speckle: each pixel independently turns black.
use vstd::prelude::*;

use crate::filters::{Error, FilterKind};
use crate::images::{lemma_put_pix, lemma_pointwise_eq, before, Image, ImageV, Pixl};
use crate::rng::rand_range_u32;

verus! {

/// Probabilities are held in fixed point: a probability is a number of
/// parts out of `NOISE_SCALE`, so `NOISE_SCALE` itself is certainty.
pub const NOISE_SCALE: u32 = 1000000;

/// Blackens every pixel independently with the given probability.
#[derive(Clone, Copy, Debug, PartialEq, Eq, Structural)]
pub struct Noise {
    pub prob: u32,
}

/// What one application of the filter leaves behind: every pixel either
/// blackened or untouched; with probability zero nothing changes, and
/// with certainty every pixel is blackened.
pub open spec fn noise_step(n: Noise, pre: ImageV, post: ImageV) -> bool {
    &&& post.wf()
&&& post.same_size(pre)
&&& forall|x: int, y: int|
    pre.in_bounds(x, y) ==> #[trigger] post.pix(x, y) == Pixl::black_spec()
        || #[trigger] post.pix(x, y) == pre.pix(x, y)
&&& n.prob == 0 ==> post == pre
&&& n.prob >= NOISE_SCALE ==> forall|x: int, y: int|
    pre.in_bounds(x, y) ==> #[trigger] post.pix(x, y) == Pixl::black_spec()
}

impl Noise {
    /// `prob` is a probability in parts per `NOISE_SCALE`.
    pub fn new(prob: u32) -> (f: Noise)
        ensures
            f == (Noise { prob }),
    {
        Noise { prob }
    }

    /// The probability must not exceed certainty. It cannot be negative by
    /// construction.
    pub open spec fn valid(self, w: int, h: int) -> bool {
        self.prob <= NOISE_SCALE
    }

    pub fn validate(&self, viewbox: (u32, u32)) -> (r: Result<(), Error>)
        ensures
            r is Ok <==> self.valid(viewbox.0 as int, viewbox.1 as int),
            r is Err ==> (r matches Err(e) && e is InvalidParameter && e.kind()
                == FilterKind::Noise),
    {
        if self.prob > NOISE_SCALE {
            return Err(
                Error::InvalidParameter {
                    filter: FilterKind::Noise,
                    detail: "prob must be between 0 and 1",
                },
            );
        }
        Ok(())
    }

    /// Every pixel is either blackened or untouched. With probability zero
    /// the canvas is unchanged; with certainty every pixel is blackened.
    pub fn apply(&self, i: &mut Image) -> (r: Result<(), Error>)
        requires
            old(i)@.wf(),
        ensures
            r is Ok,
            noise_step(*self, old(i)@, final(i)@),
    {
        let ghost orig: ImageV = i@;
        let w = i.width();
        let h = i.height();
        let prob = self.prob;
        let mut y: u32 = 0;
        while y < h
            invariant
                y <= h,
                i@.wf(),
                i@.same_size(orig),
                orig.wf(),
                w == orig.width,
                h == orig.height,
                prob == self.prob,
                forall|a: int, b: int|
                    orig.in_bounds(a, b) ==> #[trigger] i@.pix(a, b) == Pixl::black_spec()
                        || #[trigger] i@.pix(a, b) == orig.pix(a, b),
                prob == 0 ==> forall|a: int, b: int|
                    orig.in_bounds(a, b) ==> #[trigger] i@.pix(a, b) == orig.pix(a, b),
                prob >= NOISE_SCALE ==> forall|a: int, b: int|
                    orig.in_bounds(a, b) && b < y ==> #[trigger] i@.pix(a, b) == Pixl::black_spec(),
            decreases h - y,
        {
            let mut x: u32 = 0;
            while x < w
                invariant
                    x <= w,
                    y < h,
                    i@.wf(),
                    i@.same_size(orig),
                    orig.wf(),
                    w == orig.width,
                    h == orig.height,
                    prob == self.prob,
                    forall|a: int, b: int|
                        orig.in_bounds(a, b) ==> #[trigger] i@.pix(a, b) == Pixl::black_spec()
                            || #[trigger] i@.pix(a, b) == orig.pix(a, b),
                    prob == 0 ==> forall|a: int, b: int|
                        orig.in_bounds(a, b) ==> #[trigger] i@.pix(a, b) == orig.pix(a, b),
                    prob >= NOISE_SCALE ==> forall|a: int, b: int|
                        orig.in_bounds(a, b) && before(a, b, x as int, y as int)
                            ==> #[trigger] i@.pix(a, b) == Pixl::black_spec(),
                decreases w - x,
            {
                let draw = rand_range_u32(0, NOISE_SCALE);
                if draw < prob {
                    let ghost pre: ImageV = i@;
                    let p = Pixl::black();
                    i.put_pixel(x, y, p);
                    proof {
                        assert(i@ =~= (ImageV {
                            pixels: pre.pixels.update(y * pre.width + x, p),
                            ..pre
                        }));
                        lemma_put_pix(pre, x as int, y as int, p);
                    }
                }
                x = x + 1;
            }
            y = y + 1;
        }
        proof {
            if self.prob == 0 {
                lemma_pointwise_eq(i@, orig);
            }
        }
        Ok(())
    }
}

} // verus!
