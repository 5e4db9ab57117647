//! Random filled black circles across the whole canvas.
use vstd::prelude::*;

use crate::filters::{Error, FilterKind};
use crate::images::{in_circle, Image, ImageV, Pixl};
use crate::rng::rand_range_u32;

verus! {

/// One randomly placed disc: its center and its radius.
pub type Disc = (u32, u32, u32);

/// The canvas after the discs in `picks` have been filled black over
/// `orig`, read at `(x, y)`: a later disc covers an earlier one.
pub open spec fn pix_after_discs(orig: ImageV, picks: Seq<Disc>, x: int, y: int) -> Pixl
    decreases picks.len(),
{
    if picks.len() == 0 {
        orig.pix(x, y)
    } else {
        let d = picks.last();
        if in_circle(d.0 as int, d.1 as int, d.2 as int, x, y) {
            Pixl::black_spec()
        } else {
            pix_after_discs(orig, picks.drop_last(), x, y)
        }
    }
}

/// The disc `d` was drawable on a `w` by `h` canvas by a filter with radii
/// in `[min_radius, max_radius]`.
pub open spec fn disc_in_range(d: Disc, min_radius: int, max_radius: int, w: int, h: int) -> bool {
    d.0 < w && d.1 < h && min_radius <= d.2 <= max_radius
}

/// Draws `n` filled black circles at uniformly random centers, each with a
/// radius drawn from `[min_radius, max_radius]`.
#[derive(Clone, Copy, Debug, PartialEq, Eq, Structural)]
pub struct Dots {
    pub n: u32,
    pub min_radius: u32,
    pub max_radius: u32,
}

/// What one successful application of the filter leaves behind: exactly
/// `n` discs with in-range centers and radii filled black over `pre`.
pub open spec fn dots_step(d: Dots, pre: ImageV, post: ImageV) -> bool {
    &&& post.wf()
&&& post.same_size(pre)
&&& d.min_radius <= d.max_radius
&&& exists|picks: Seq<Disc>|
    {
        &&& picks.len() == d.n
        &&& forall|k: int|
            0 <= k < picks.len() ==> disc_in_range(
                #[trigger] picks[k],
                d.min_radius as int,
                d.max_radius as int,
                pre.width as int,
                pre.height as int,
            )
        &&& forall|x: int, y: int|
            pre.in_bounds(x, y) ==> #[trigger] post.pix(x, y) == pix_after_discs(pre, picks, x, y)
    }
}

impl Dots {
    /// `n` circles with the default radius range of 5 to 10.
    pub fn new(n: u32) -> (f: Dots)
        ensures
            f == (Dots { n, min_radius: 5u32, max_radius: 10u32 }),
    {
        Dots { n, min_radius: 5, max_radius: 10 }
    }

    pub fn min_radius(self, r: u32) -> (f: Dots)
        ensures
            f == (Dots { min_radius: r, ..self }),
    {
        Dots { min_radius: r, ..self }
    }

    pub fn max_radius(self, r: u32) -> (f: Dots)
        ensures
            f == (Dots { max_radius: r, ..self }),
    {
        Dots { max_radius: r, ..self }
    }

    /// Both radii must be positive and strictly smaller than both canvas
    /// dimensions, and the count must lie strictly between 0 and 5.
    pub open spec fn valid(self, w: int, h: int) -> bool {
        self.min_radius > 0 && self.max_radius > 0 && self.min_radius < w && self.min_radius < h
            && self.max_radius < w && self.max_radius < h && self.n > 0 && self.n < 5
    }

    pub fn validate(&self, viewbox: (u32, u32)) -> (r: Result<(), Error>)
        ensures
            r is Ok <==> self.valid(viewbox.0 as int, viewbox.1 as int),
            r is Err ==> (r matches Err(e) && (e is OutOfRangeGeometry || e is InvalidParameter)
                && e.kind() == FilterKind::Dots),
    {
        if self.min_radius == 0 || self.max_radius == 0 || self.min_radius >= viewbox.0
            || self.min_radius >= viewbox.1 || self.max_radius >= viewbox.0 || self.max_radius
            >= viewbox.1 {
            return Err(
                Error::OutOfRangeGeometry {
                    filter: FilterKind::Dots,
                    detail: "min_radius and max_radius must be greater than 0 and must be smaller than the viewbox",
                },
            );
        }
        if self.n == 0 || self.n >= 5 {
            return Err(
                Error::InvalidParameter {
                    filter: FilterKind::Dots,
                    detail: "n must be greater than 0 and less than 5",
                },
            );
        }
        Ok(())
    }

    /// When the radius range is not empty, exactly `n` discs with in-range
    /// centers and radii are filled black; otherwise the filter fails and
    /// the canvas is unchanged.
    pub fn apply(&self, i: &mut Image) -> (r: Result<(), Error>)
        requires
            old(i)@.wf(),
            self.valid(old(i)@.width as int, old(i)@.height as int),
        ensures
            final(i)@.wf(),
            final(i)@.same_size(old(i)@),
            r is Ok <==> self.min_radius <= self.max_radius,
            r is Err ==> final(i)@ == old(i)@ && (r matches Err(e) && e is ApplyFailure && e.kind()
                == FilterKind::Dots),
            r is Ok ==> dots_step(*self, old(i)@, final(i)@),
    {
        let ghost orig: ImageV = i@;
        if self.min_radius > self.max_radius {
            return Err(
                Error::ApplyFailure {
                    filter: FilterKind::Dots,
                    detail: "min_radius must not exceed max_radius",
                },
            );
        }
        let w = i.width();
        let h = i.height();
        let mut k: u32 = 0;
        let ghost mut picks: Seq<Disc> = Seq::empty();
        while k < self.n
            invariant
                k <= self.n,
                i@.wf(),
                i@.same_size(orig),
                orig.wf(),
                w == orig.width,
                h == orig.height,
                w > self.max_radius,
                h > self.max_radius,
                self.min_radius <= self.max_radius,
                picks.len() == k,
                forall|m: int|
                    0 <= m < picks.len() ==> disc_in_range(
                        #[trigger] picks[m],
                        self.min_radius as int,
                        self.max_radius as int,
                        orig.width as int,
                        orig.height as int,
                    ),
                forall|x: int, y: int|
                    orig.in_bounds(x, y) ==> #[trigger] i@.pix(x, y) == pix_after_discs(
                        orig,
                        picks,
                        x,
                        y,
                    ),
            decreases self.n - k,
        {
            let x = rand_range_u32(0, w);
            let y = rand_range_u32(0, h);
            let r = rand_range_u32(self.min_radius, self.max_radius + 1);
            let ghost pre: ImageV = i@;
            i.fill_circle(x, y, r, Pixl::black());
            proof {
                let d: Disc = (x, y, r);
                let grown = picks.push(d);
                assert(grown.drop_last() =~= picks);
                assert(grown.last() == d);
                assert forall|a: int, b: int| orig.in_bounds(a, b) implies #[trigger] i@.pix(a, b)
                    == pix_after_discs(orig, grown, a, b) by {
                    assert(pre.pix(a, b) == pix_after_discs(orig, picks, a, b));
                }
                picks = grown;
            }
            k = k + 1;
        }
        Ok(())
    }
}

} // verus!
