//! Filters that disturb and transform the challenge canvas.
//!
//! Every filter obeys the same two-phase contract: `validate` is a pure
//! check of the filter's parameters against the dimensions of the canvas it
//! will run on, and `apply` mutates the canvas in place. A chain of filters
//! runs every validation before the first application, so a rejected chain
//! leaves the canvas untouched.
use vstd::prelude::*;

pub mod color_invert;
pub mod cow;
pub mod dots;
pub mod grid;
pub mod line;
pub mod noise;
pub mod random_line;
pub mod wave;

pub use color_invert::ColorInvert;
pub use cow::Cow;
pub use cow::Geometry;
pub use dots::Dots;
pub use grid::Grid;
pub use line::Line;
pub use noise::Noise;
pub use noise::NOISE_SCALE;
pub use random_line::RandomLine;
pub use wave::Direction;
pub use wave::Wave;

use crate::images::{Image, ImageV, Pixl};

verus! {

/// One named, parameterized transformation: a closed sum over the eight
/// concrete filter kinds, dispatching the validate/apply contract.
#[derive(Clone, Copy, Debug, PartialEq, Eq, Structural)]
pub enum Filter {
    Noise(Noise),
    Grid(Grid),
    Line(Line),
    ColorInvert(ColorInvert),
    Dots(Dots),
    RandomLine(RandomLine),
    Wave(Wave),
    Cow(Cow),
}

impl Filter {
    /// The filter's parameters are valid for a `w` by `h` canvas.
    pub open spec fn valid(self, w: int, h: int) -> bool {
        match self {
            Filter::Noise(f) => f.valid(w, h),
            Filter::Grid(f) => f.valid(w, h),
            Filter::Line(f) => f.valid(w, h),
            Filter::ColorInvert(f) => f.valid(w, h),
            Filter::Dots(f) => f.valid(w, h),
            Filter::RandomLine(f) => f.valid(w, h),
            Filter::Wave(f) => f.valid(w, h),
            Filter::Cow(f) => f.valid(w, h),
        }
    }

    /// The discriminant naming this filter's variant.
    pub open spec fn kind(self) -> FilterKind {
        match self {
            Filter::Noise(_) => FilterKind::Noise,
            Filter::Grid(_) => FilterKind::Grid,
            Filter::Line(_) => FilterKind::Line,
            Filter::ColorInvert(_) => FilterKind::ColorInvert,
            Filter::Dots(_) => FilterKind::Dots,
            Filter::RandomLine(_) => FilterKind::RandomLine,
            Filter::Wave(_) => FilterKind::Wave,
            Filter::Cow(_) => FilterKind::Cow,
        }
    }

    /// Once validated, applying the filter can fail only for Dots with an
    /// empty radius range.
    pub open spec fn can_apply(self) -> bool {
        match self {
            Filter::Dots(d) => d.min_radius <= d.max_radius,
            _ => true,
        }
    }

    /// A pure check of the filter's parameters against the dimensions of
    /// the canvas it will run on; it succeeds exactly when they are valid,
    /// and a failure names this filter.
    pub fn validate(&self, viewbox: (u32, u32)) -> (r: Result<(), Error>)
        ensures
            r is Ok <==> self.valid(viewbox.0 as int, viewbox.1 as int),
            r matches Err(e) ==> e.kind() == self.kind(),
    {
        match self {
            Filter::Noise(f) => f.validate(viewbox),
            Filter::Grid(f) => f.validate(viewbox),
            Filter::Line(f) => f.validate(viewbox),
            Filter::ColorInvert(f) => f.validate(viewbox),
            Filter::Dots(f) => f.validate(viewbox),
            Filter::RandomLine(f) => f.validate(viewbox),
            Filter::Wave(f) => f.validate(viewbox),
            Filter::Cow(f) => f.validate(viewbox),
        }
    }

    /// Mutates the canvas in place, with each variant's own contract:
    /// on success the old and new canvas are related by this filter's
    /// step relation. The caller must have validated the filter against
    /// this canvas's dimensions. Only Dots with an empty radius range can
    /// fail; a failure names this filter and leaves the canvas unchanged.
    pub fn apply(&self, i: &mut Image) -> (r: Result<(), Error>)
        requires
            old(i)@.wf(),
            self.valid(old(i)@.width as int, old(i)@.height as int),
        ensures
            final(i)@.wf(),
            final(i)@.same_size(old(i)@),
            r is Ok <==> self.can_apply(),
            r matches Err(e) ==> final(i)@ == old(i)@ && e is ApplyFailure && e.kind()
                == self.kind(),
            r is Ok ==> filter_step(*self, old(i)@, final(i)@),
    {
        match self {
            Filter::Noise(f) => f.apply(i),
            Filter::Grid(f) => f.apply(i),
            Filter::Line(f) => f.apply(i),
            Filter::ColorInvert(f) => f.apply(i),
            Filter::Dots(f) => f.apply(i),
            Filter::RandomLine(f) => f.apply(i),
            Filter::Wave(f) => f.apply(i),
            Filter::Cow(f) => f.apply(i),
        }
    }
}

/// What one successful application of `f` leaves behind: `post` is a
/// canvas that `f.apply` run on `pre` may produce, by the applied
/// variant's own step relation.
pub open spec fn filter_step(f: Filter, pre: ImageV, post: ImageV) -> bool {
    match f {
        Filter::Noise(n) => noise::noise_step(n, pre, post),
        Filter::Grid(g) => grid::grid_step(g, pre, post),
        Filter::Line(l) => line::line_step(l, pre, post),
        Filter::ColorInvert(_) => color_invert::color_invert_step(pre, post),
        Filter::Dots(d) => dots::dots_step(d, pre, post),
        Filter::RandomLine(_) => random_line::random_line_step(pre, post),
        Filter::Wave(w) => wave::wave_step(w, pre, post),
        Filter::Cow(c) => cow::cow_step(c, pre, post),
    }
}

/// `trace` is a run of the filters of `s`: one canvas state more than
/// there are filters, consecutive states related by the step relation of
/// the filter between them.
pub open spec fn chain_steps(s: Seq<Filter>, trace: Seq<ImageV>) -> bool {
    &&& trace.len() == s.len() + 1
&&& forall|k: int| 0 <= k < s.len() ==> #[trigger] filter_step(s[k], trace[k], trace[k + 1])
}

/// An ordered list of filters, validated as a whole against one canvas
/// and then applied to it in sequence: filter `i` observes the canvas
/// exactly as filter `i - 1` left it.
#[derive(Debug, PartialEq)]
pub struct FilterChain {
    pub filters: Vec<Filter>,
}

impl FilterChain {
    pub fn new() -> (c: FilterChain)
        ensures
            c.filters@ == Seq::<Filter>::empty(),
    {
        FilterChain { filters: Vec::new() }
    }

    /// Appends a filter to the end of the chain.
    pub fn add(&mut self, f: Filter)
        ensures
            final(self).filters@ == old(self).filters@.push(f),
    {
        self.filters.push(f);
    }

    /// Every filter of the chain is valid for a `w` by `h` canvas.
    pub open spec fn all_valid(self, w: int, h: int) -> bool {
        forall|k: int| 0 <= k < self.filters@.len() ==> #[trigger] self.filters@[k].valid(w, h)
    }

    /// Every filter of the chain can be applied once validated.
    pub open spec fn all_applicable(self) -> bool {
        forall|k: int| 0 <= k < self.filters@.len() ==> (#[trigger] self.filters@[k]).can_apply()
    }

    /// Validates every filter against the viewbox; it succeeds exactly
    /// when all of them are valid, and fails with the error of an invalid
    /// filter, which the error names.
    pub fn validate(&self, viewbox: (u32, u32)) -> (r: Result<(), Error>)
        ensures
            r is Ok <==> self.all_valid(viewbox.0 as int, viewbox.1 as int),
            r matches Err(e) ==> exists|k: int|
                0 <= k < self.filters@.len() && !(#[trigger] self.filters@[k]).valid(
                    viewbox.0 as int,
                    viewbox.1 as int,
                ) && e.kind() == self.filters@[k].kind(),
    {
        let n: usize = self.filters.len();
        let mut k: usize = 0;
        while k < n
            invariant
                k <= n,
                n == self.filters@.len(),
                forall|m: int|
                    0 <= m < k ==> #[trigger] self.filters@[m].valid(
                        viewbox.0 as int,
                        viewbox.1 as int,
                    ),
            decreases n - k,
        {
            match self.filters[k].validate(viewbox) {
                Ok(_) => {
                },
                Err(e) => {
                    proof {
                        assert(!self.filters@[k as int].valid(viewbox.0 as int, viewbox.1 as int)
                            && e.kind() == self.filters@[k as int].kind());
                    }
                    return Err(e);
                },
            }
            k = k + 1;
        }
        Ok(())
    }

    /// Runs the two-phase pipeline: every filter is validated against the
    /// canvas's dimensions before any is applied. A chain with an invalid
    /// filter is rejected with the canvas left completely untouched. Once
    /// application has begun, the final canvas is the result of running
    /// the filters in order, each step related to the last by the applied
    /// filter's step relation; a failing filter ends the run, keeping the
    /// mutations of the filters before it, and its error is reported.
    pub fn apply(&self, i: &mut Image) -> (r: Result<(), Error>)
        requires
            old(i)@.wf(),
        ensures
            final(i)@.wf(),
            final(i)@.same_size(old(i)@),
            !self.all_valid(old(i)@.width as int, old(i)@.height as int) ==> r is Err && final(i)@
                == old(i)@,
            r is Ok ==> self.all_valid(old(i)@.width as int, old(i)@.height as int),
            self.filters@.len() == 0 ==> r is Ok && final(i)@ == old(i)@,
            self.all_valid(old(i)@.width as int, old(i)@.height as int) && self.all_applicable()
                ==> r is Ok,
            r is Ok ==> exists|trace: Seq<ImageV>|
                #[trigger] chain_steps(self.filters@, trace) && trace.first() == old(i)@
                    && trace.last() == final(i)@,
            r is Err && self.all_valid(old(i)@.width as int, old(i)@.height as int) ==> exists|
                m: int,
                trace: Seq<ImageV>,
            |
                0 <= m < self.filters@.len() && !(#[trigger] self.filters@[m]).can_apply()
                    && #[trigger] chain_steps(self.filters@.take(m), trace) && trace.first()
                    == old(i)@ && trace.last() == final(i)@,
    {
        let ghost orig: ImageV = i@;
        let viewbox = (i.width(), i.height());
        match self.validate(viewbox) {
            Err(e) => {
                return Err(e);
            },
            Ok(_) => {
            },
        }
        let n: usize = self.filters.len();
        let mut k: usize = 0;
        let ghost mut trace: Seq<ImageV> = seq![orig];
        while k < n
            invariant
                k <= n,
                n == self.filters@.len(),
                orig == old(i)@,
                i@.wf(),
                i@.same_size(orig),
                orig.wf(),
                n == 0 ==> i@ == orig,
                self.all_valid(orig.width as int, orig.height as int),
                trace.len() == k + 1,
                trace.first() == orig,
                trace.last() == i@,
                chain_steps(self.filters@.take(k as int), trace),
            decreases n - k,
        {
            let ghost pre: ImageV = i@;
            match self.filters[k].apply(i) {
                Ok(_) => {
                    proof {
                        let ki = k as int;
                        assert(filter_step(self.filters@[ki], pre, i@));
                        let grown = trace.push(i@);
                        assert(grown.first() == orig);
                        assert(grown.last() == i@);
                        assert(self.filters@.take(ki + 1) =~= self.filters@.take(ki).push(
                            self.filters@[ki],
                        ));
                        assert forall|j: int| 0 <= j < ki + 1 implies #[trigger] filter_step(
                            self.filters@.take(ki + 1)[j],
                            grown[j],
                            grown[j + 1],
                        ) by {
                            if j < ki {
                                assert(filter_step(
                                    self.filters@.take(ki)[j],
                                    trace[j],
                                    trace[j + 1],
                                ));
                            } else {
                                assert(grown[ki] == trace.last());
                            }
                        }
                        assert(chain_steps(self.filters@.take(ki + 1), grown));
                        trace = grown;
                    }
                },
                Err(e) => {
                    proof {
                        let ki = k as int;
                        assert(!self.filters@[ki].can_apply());
                        assert(i@ == pre);
                        assert(chain_steps(self.filters@.take(ki), trace) && trace.first() == orig
                            && trace.last() == i@);
                    }
                    return Err(e);
                },
            }
            k = k + 1;
        }
        proof {
            assert(self.filters@.take(n as int) =~= self.filters@);
            assert(chain_steps(self.filters@, trace));
        }
        Ok(())
    }
}

/// Names the filter variant an error came from.
#[derive(Clone, Copy, Debug, PartialEq, Eq, Structural)]
pub enum FilterKind {
    Noise,
    Grid,
    Line,
    ColorInvert,
    Dots,
    RandomLine,
    Wave,
    Cow,
}

/// Errors are data, not control flow: a validation failure (invalid
/// parameter or out-of-range geometry) is detected before any pixel is
/// touched; an apply failure surfaces mid-run and leaves the mutations of
/// the filters already applied in place.
#[derive(Clone, Copy, Debug, PartialEq, Eq)]
pub enum Error {
    InvalidParameter { filter: FilterKind, detail: &'static str },
    OutOfRangeGeometry { filter: FilterKind, detail: &'static str },
    ApplyFailure { filter: FilterKind, detail: &'static str },
}

impl Error {
    /// The filter variant the error names.
    pub open spec fn kind(self) -> FilterKind {
        match self {
            Error::InvalidParameter { filter, .. } => filter,
            Error::OutOfRangeGeometry { filter, .. } => filter,
            Error::ApplyFailure { filter, .. } => filter,
        }
    }

    /// A short description of the error, for callers that report it.
    pub fn message(&self) -> (r: &'static str)
        ensures
            r == match *self {
                Error::InvalidParameter { detail, .. } => detail,
                Error::OutOfRangeGeometry { detail, .. } => detail,
                Error::ApplyFailure { detail, .. } => detail,
            },
    {
        match *self {
            Error::InvalidParameter { detail, .. } => detail,
            Error::OutOfRangeGeometry { detail, .. } => detail,
            Error::ApplyFailure { detail, .. } => detail,
        }
    }
}

/// An RGB color as it appears in a persisted filter configuration.
#[derive(Clone, Copy, Debug, PartialEq, Eq, Structural)]
pub struct SerdeColor {
    pub r: u8,
    pub g: u8,
    pub b: u8,
}

impl SerdeColor {
    pub fn new(r: u8, g: u8, b: u8) -> (c: SerdeColor)
        ensures
            c == (SerdeColor { r, g, b }),
    {
        SerdeColor { r, g, b }
    }

    /// The fully opaque pixel of this color.
    pub fn to_pixl(&self) -> (p: Pixl)
        ensures
            p == (Pixl { r: self.r, g: self.g, b: self.b, a: 255u8 }),
    {
        Pixl::new(self.r, self.g, self.b)
    }
}

} // verus!
