//! Circle occlusion constrained to a rectangular area.
use vstd::prelude::*;

use crate::filters::dots::{pix_after_discs, Disc};
use crate::filters::{Error, FilterKind};
use crate::images::{Image, ImageV, Pixl};
use crate::rng::rand_range_u32;

verus! {

/// The disc `d` was drawable by a filter with radii in
/// `[min_radius, max_radius]` whose centers lie inside `area`.
pub open spec fn disc_in_area(d: Disc, area: Geometry, min_radius: int, max_radius: int) -> bool {
    area.x_min <= d.0 <= area.x_max && area.y_min <= d.1 <= area.y_max && min_radius <= d.2
        <= max_radius
}

/// What one application of the filter leaves behind: exactly `circles`
/// discs, centered in the area with in-range radii, filled black over
/// `pre`.
pub open spec fn cow_step(c: Cow, pre: ImageV, post: ImageV) -> bool {
    &&& post.wf()
&&& post.same_size(pre)
&&& exists|picks: Seq<Disc>|
    {
        &&& picks.len() == c.circles
        &&& forall|k: int|
            0 <= k < picks.len() ==> disc_in_area(
                #[trigger] picks[k],
                c.area,
                c.min_radius as int,
                c.max_radius as int,
            )
        &&& forall|x: int, y: int|
            pre.in_bounds(x, y) ==> #[trigger] post.pix(x, y) == pix_after_discs(pre, picks, x, y)
    }
}

/// The rectangle, given by inclusive bounds, inside which an
/// area-constrained filter may place its shapes.
#[derive(Clone, Copy, Debug, PartialEq, Eq, Structural)]
pub struct Geometry {
    pub x_min: u32,
    pub x_max: u32,
    pub y_min: u32,
    pub y_max: u32,
}

impl Geometry {
    pub fn new(x_min: u32, x_max: u32, y_min: u32, y_max: u32) -> (g: Geometry)
        ensures
            g == (Geometry { x_min, x_max, y_min, y_max }),
    {
        Geometry { x_min, x_max, y_min, y_max }
    }
}

/// Draws a number of filled black circles, each centered at a random point
/// inside the declared area, to occlude parts of the glyph strokes.
#[derive(Clone, Copy, Debug, PartialEq, Eq, Structural)]
pub struct Cow {
    pub min_radius: u32,
    pub max_radius: u32,
    pub circles: u32,
    pub area: Geometry,
}

impl Cow {
    /// One circle with the default radius range of 5 to 10; the area must
    /// be set before the filter validates.
    pub fn new() -> (f: Cow)
        ensures
            f == (Cow {
                min_radius: 5u32,
                max_radius: 10u32,
                circles: 1u32,
                area: Geometry { x_min: 0u32, x_max: 0u32, y_min: 0u32, y_max: 0u32 },
            }),
    {
        Cow {
            min_radius: 5,
            max_radius: 10,
            circles: 1,
            area: Geometry { x_min: 0, x_max: 0, y_min: 0, y_max: 0 },
        }
    }

    pub fn min_radius(self, r: u32) -> (f: Cow)
        ensures
            f == (Cow { min_radius: r, ..self }),
    {
        Cow { min_radius: r, ..self }
    }

    pub fn max_radius(self, r: u32) -> (f: Cow)
        ensures
            f == (Cow { max_radius: r, ..self }),
    {
        Cow { max_radius: r, ..self }
    }

    pub fn circles(self, n: u32) -> (f: Cow)
        ensures
            f == (Cow { circles: n, ..self }),
    {
        Cow { circles: n, ..self }
    }

    pub fn area(self, g: Geometry) -> (f: Cow)
        ensures
            f == (Cow { area: g, ..self }),
    {
        Cow { area: g, ..self }
    }

    /// The radius range must be ordered and positive, the area must lie
    /// inside the canvas, and every circle drawable from these parameters
    /// — any center in the area, any radius up to `max_radius` — must stay
    /// fully inside the canvas.
    pub open spec fn valid(self, w: int, h: int) -> bool {
        &&& 0 < self.min_radius <= self.max_radius
    &&& self.area.x_min <= self.area.x_max < w
    &&& self.area.y_min <= self.area.y_max < h
    &&& self.area.x_min >= self.max_radius
    &&& self.area.y_min >= self.max_radius
    &&& self.area.x_max + self.max_radius < w
    &&& self.area.y_max + self.max_radius < h
    }

    pub fn validate(&self, viewbox: (u32, u32)) -> (r: Result<(), Error>)
        ensures
            r is Ok <==> self.valid(viewbox.0 as int, viewbox.1 as int),
            r is Err ==> (r matches Err(e) && (e is InvalidParameter || e is OutOfRangeGeometry)
                && e.kind() == FilterKind::Cow),
    {
        let w = viewbox.0 as u64;
        let h = viewbox.1 as u64;
        if self.min_radius == 0 || self.min_radius > self.max_radius {
            return Err(
                Error::InvalidParameter {
                    filter: FilterKind::Cow,
                    detail: "radii must be positive and min_radius must not exceed max_radius",
                },
            );
        }
        let a = self.area;
        let mr: u64 = self.max_radius as u64;
        let area_ok = a.x_min <= a.x_max && (a.x_max as u64) < w && a.y_min <= a.y_max && ((a.y_max
            as u64) < h) && a.x_min >= self.max_radius && a.y_min >= self.max_radius && ((a.x_max
            as u64 + mr) < w) && ((a.y_max as u64 + mr) < h);
        if !area_ok {
            return Err(
                Error::OutOfRangeGeometry {
                    filter: FilterKind::Cow,
                    detail: "every circle must fit inside the area and the viewbox",
                },
            );
        }
        Ok(())
    }

    /// Fills `circles` black discs, each centered at a random point of the
    /// area with a radius drawn from `[min_radius, max_radius]`.
    pub fn apply(&self, i: &mut Image) -> (r: Result<(), Error>)
        requires
            old(i)@.wf(),
            self.valid(old(i)@.width as int, old(i)@.height as int),
        ensures
            r is Ok,
            cow_step(*self, old(i)@, final(i)@),
    {
        let ghost orig: ImageV = i@;
        proof {
            crate::images::lemma_dims_bounded(i);
        }
        let mut k: u32 = 0;
        let ghost mut picks: Seq<Disc> = Seq::empty();
        while k < self.circles
            invariant
                k <= self.circles,
                i@.wf(),
                i@.same_size(orig),
                orig.wf(),
                self.valid(orig.width as int, orig.height as int),
                orig.width <= u32::MAX,
                orig.height <= u32::MAX,
                picks.len() == k,
                forall|m: int|
                    0 <= m < picks.len() ==> disc_in_area(
                        #[trigger] picks[m],
                        self.area,
                        self.min_radius as int,
                        self.max_radius as int,
                    ),
                forall|x: int, y: int|
                    orig.in_bounds(x, y) ==> #[trigger] i@.pix(x, y) == pix_after_discs(
                        orig,
                        picks,
                        x,
                        y,
                    ),
            decreases self.circles - k,
        {
            let cx = rand_range_u32(self.area.x_min, self.area.x_max + 1);
            let cy = rand_range_u32(self.area.y_min, self.area.y_max + 1);
            let rr = rand_range_u32(self.min_radius, self.max_radius + 1);
            let ghost pre: ImageV = i@;
            i.fill_circle(cx, cy, rr, Pixl::black());
            proof {
                let d: Disc = (cx, cy, rr);
                let grown = picks.push(d);
                assert(grown.drop_last() =~= picks);
                assert(grown.last() == d);
                assert forall|a: int, b: int| orig.in_bounds(a, b) implies #[trigger] i@.pix(a, b)
                    == pix_after_discs(orig, grown, a, b) by {
                    assert(pre.pix(a, b) == pix_after_discs(orig, picks, a, b));
                }
                picks = grown;
            }
            k = k + 1;
        }
        Ok(())
    }
}

} // verus!
