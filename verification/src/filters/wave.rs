//! Sinusoidal pixel warping along one axis.
use vstd::prelude::*;

use crate::filters::{Error, FilterKind};
use crate::images::{lemma_pointwise_eq, lemma_put_pix, Image, ImageV, Pixl};

verus! {

/// The displacement magnitude: `amp` scaled by a rational approximation
/// of `sin(pi * p / q)` for a half-period position `p` in `[0, q)`. The
/// approximation `16v(1-v) / (5 - 4v(1-v))` of `sin(pi v)` is exact at
/// `v = 0`, `1/2` and `1`, and never exceeds 1.
pub open spec fn sin_mag(amp: int, p: int, q: int) -> int {
    (amp * (16 * (p * (q - p)))) / (5 * (q * q) - 4 * (p * (q - p)))
}

/// The signed displacement of lane `x` on a canvas `w` lanes wide: the
/// sinusoid completes `f` full periods across the width and swings
/// between `-amp` and `amp`. `(f * x) % w` fixes the position within one
/// period; the first half-period displaces one way, the second the other.
pub open spec fn wave_shift(f: int, amp: int, x: int, w: int) -> int {
    let r = (f * x) % w;
    if 2 * r < w {
        sin_mag(amp, 2 * r, w)
    } else {
        -sin_mag(amp, 2 * r - w, w)
    }
}

/// The magnitude lies in `[0, amp]` and vanishes at a zero amplitude and
/// at the start of a half-period.
pub proof fn lemma_sin_mag_bounds(amp: int, p: int, q: int)
    requires
        0 <= amp,
        0 <= p < q,
    ensures
        0 <= sin_mag(amp, p, q) <= amp,
        amp == 0 || p == 0 ==> sin_mag(amp, p, q) == 0,
{
    let t = p * (q - p);
    let num = 16 * t;
    let den = 5 * (q * q) - 4 * t;
    assert(0 <= t) by (nonlinear_arith)
        requires
            t == p * (q - p),
            0 <= p < q,
    ;
    assert(4 * t <= q * q) by (nonlinear_arith)
        requires
            t == p * (q - p),
            0 <= p < q,
    ;
    assert(1 <= q * q) by (nonlinear_arith)
        requires
            1 <= q,
    ;
    assert(den >= 1);
    assert(num <= den);
    assert(amp * num <= amp * den) by (nonlinear_arith)
        requires
            0 <= amp,
            num <= den,
    ;
    assert(0 <= amp * num) by (nonlinear_arith)
        requires
            0 <= amp,
            0 <= num,
    ;
    vstd::arithmetic::div_mod::lemma_div_is_ordered(amp * num, amp * den, den);
    assert(amp * den == den * amp) by (nonlinear_arith);
    vstd::arithmetic::div_mod::lemma_div_multiples_vanish(amp, den);
    vstd::arithmetic::div_mod::lemma_div_pos_is_pos(amp * num, den);
    if amp == 0 || p == 0 {
        assert(amp * num == 0) by (nonlinear_arith)
            requires
                amp == 0 || t == 0,
                num == 16 * t,
        ;
        vstd::arithmetic::div_mod::lemma_div_of0(den);
    }
}

/// The displacement is zero everywhere when the frequency or the
/// amplitude is zero.
pub proof fn lemma_wave_shift_zero(f: int, amp: int, x: int, w: int)
    requires
        1 <= w,
        0 <= f,
        0 <= amp,
        0 <= x,
        f == 0 || amp == 0,
    ensures
        wave_shift(f, amp, x, w) == 0,
{
    assert(0 <= f * x) by (nonlinear_arith)
        requires
            0 <= f,
            0 <= x,
    ;
    vstd::arithmetic::div_mod::lemma_mod_bound(f * x, w);
    let r = (f * x) % w;
    if f == 0 {
        assert(f * x == 0);
        assert((0int) % w == 0) by (nonlinear_arith)
            requires
                1 <= w,
        ;
        lemma_sin_mag_bounds(amp, 0, w);
    } else {
        if 2 * r < w {
            lemma_sin_mag_bounds(amp, 2 * r, w);
        } else {
            lemma_sin_mag_bounds(amp, 2 * r - w, w);
        }
    }
}

/// Computes `wave_shift` in bounded arithmetic.
fn shift_at(f: u32, amp: u32, x: u32, w: u32) -> (s: i64)
    requires
        1 <= w,
    ensures
        s == wave_shift(f as int, amp as int, x as int, w as int),
        -(amp as int) <= s <= amp as int,
        f == 0 || amp == 0 ==> s == 0,
{
    proof {
        assert((f as int) * (x as int) <= 0xFFFFFFFFu64 * 0xFFFFFFFFu64) by (nonlinear_arith)
            requires
                0 <= f as int <= 0xFFFFFFFFu64,
                0 <= x as int <= 0xFFFFFFFFu64,
        ;
        assert(0 <= (f as int) * (x as int)) by (nonlinear_arith)
            requires
                0 <= f as int,
                0 <= x as int,
        ;
    }
    let fx: u64 = (f as u64) * (x as u64);
    let r: u64 = fx % (w as u64);
    let q: u128 = w as u128;
    let rr: u128 = r as u128;
    let neg: bool = 2 * rr >= q;
    let p: u128 = if neg {
        2 * rr - q
    } else {
        2 * rr
    };
    proof {
        assert(p < q);
        assert(p * (q - p) <= q * q) by (nonlinear_arith)
            requires
                0 <= p < q,
        ;
        assert(q * q <= 0x100000000000000000000u128) by (nonlinear_arith)
            requires
                q < 0x100000000u128,
        ;
        assert((amp as u128) * (16 * (p * (q - p))) <= 0x100000000u128 * (16
            * 0x100000000000000000000u128)) by (nonlinear_arith)
            requires
                amp < 0x100000000u128,
                p * (q - p) <= 0x100000000000000000000u128,
                0 <= p * (q - p),
        ;
    }
    let t: u128 = p * (q - p);
    let num: u128 = 16 * t;
    proof {
        assert(1 <= q * q) by (nonlinear_arith)
            requires
                1 <= q,
        ;
    }
    let den: u128 = 5 * (q * q) - 4 * t;
    let mag: u128 = (amp as u128) * num / den;
    proof {
        lemma_sin_mag_bounds(amp as int, p as int, q as int);
        if f == 0 {
            assert((0int) % (w as int) == 0) by (nonlinear_arith)
                requires
                    1 <= (w as int),
            ;
            assert(p == 0);
        }
    }
    if neg {
        -(mag as i64)
    } else {
        mag as i64
    }
}

/// The pixel of the horizontally warped canvas at `(x, y)`: the whole
/// column `x` is shifted vertically by the column's displacement; rows
/// whose source falls outside the canvas are left at the background.
pub open spec fn warped_h(orig: ImageV, f: int, amp: int, x: int, y: int) -> Pixl {
    let s = wave_shift(f, amp, x, orig.width as int);
    if 0 <= y + s < orig.height {
        orig.pix(x, y + s)
    } else {
        Pixl::white_spec()
    }
}

/// The pixel of the vertically warped canvas at `(x, y)`: the whole row
/// `y` is shifted horizontally by the row's displacement, whose phase is
/// taken from the canvas width as in horizontal mode.
pub open spec fn warped_v(orig: ImageV, f: int, amp: int, x: int, y: int) -> Pixl {
    let s = wave_shift(f, amp, y, orig.width as int);
    if 0 <= x + s < orig.width {
        orig.pix(x + s, y)
    } else {
        Pixl::white_spec()
    }
}

/// The axis along which pixels are displaced.
#[derive(Clone, Copy, Debug, PartialEq, Eq, Structural)]
pub enum Direction {
    HORIZONTAL,
    VERTICAL,
}

/// What one application of the filter leaves behind: the canvas warped
/// along the chosen axis; with a zero frequency or amplitude, nothing
/// changes.
pub open spec fn wave_step(w: Wave, pre: ImageV, post: ImageV) -> bool {
    &&& post.wf()
&&& post.same_size(pre)
&&& w.d is HORIZONTAL ==> forall|x: int, y: int|
    pre.in_bounds(x, y) ==> #[trigger] post.pix(x, y) == warped_h(
        pre,
        w.f as int,
        w.amp as int,
        x,
        y,
    )
&&& w.d is VERTICAL ==> forall|x: int, y: int|
    pre.in_bounds(x, y) ==> #[trigger] post.pix(x, y) == warped_v(
        pre,
        w.f as int,
        w.amp as int,
        x,
        y,
    )
&&& w.f == 0 || w.amp == 0 ==> post == pre
}

/// Applies the horizontal-mode warp in place.
fn warp_h(i: &mut Image, f: u32, amp: u32)
    requires
        old(i)@.wf(),
        old(i)@.width >= 1,
        old(i)@.height >= 1,
    ensures
        final(i)@.wf(),
        final(i)@.same_size(old(i)@),
        forall|x: int, y: int|
            old(i)@.in_bounds(x, y) ==> #[trigger] final(i)@.pix(x, y) == warped_h(
                old(i)@,
                f as int,
                amp as int,
                x,
                y,
            ),
{
    let ghost orig: ImageV = i@;
    let snap = i.clone();
    i.clear();
    let w = i.width();
    let h = i.height();
    let mut x: u32 = 0;
    while x < w
        invariant
            x <= w,
            i@.wf(),
            i@.same_size(orig),
            orig.wf(),
            snap@ == orig,
            w == orig.width,
            h == orig.height,
            w >= 1,
            h >= 1,
            forall|a: int, b: int|
                orig.in_bounds(a, b) ==> #[trigger] i@.pix(a, b) == if a < x {
                    warped_h(orig, f as int, amp as int, a, b)
                } else {
                    Pixl::white_spec()
                },
        decreases w - x,
    {
        let s: i64 = shift_at(f, amp, x, w);
        let mut y: u32 = 0;
        while y < h
            invariant
                y <= h,
                x < w,
                i@.wf(),
                i@.same_size(orig),
                orig.wf(),
                snap@ == orig,
                w == orig.width,
                h == orig.height,
                w >= 1,
                h >= 1,
                s == wave_shift(f as int, amp as int, x as int, w as int),
                -(amp as int) <= s <= amp as int,
                forall|a: int, b: int|
                    orig.in_bounds(a, b) ==> #[trigger] i@.pix(a, b) == if a < x {
                        warped_h(orig, f as int, amp as int, a, b)
                    } else if a == x && 0 <= b + s < h && b + s < y {
                        orig.pix(a, b + s)
                    } else {
                        Pixl::white_spec()
                    },
            decreases h - y,
        {
            let ny: i64 = y as i64 - s;
            if 0 <= ny && ny < h as i64 {
                let px = snap.get_pixel(x, y);
                let ghost pre: ImageV = i@;
                i.put_pixel(x, ny as u32, px);
                proof {
                    assert(i@ =~= (ImageV {
                        pixels: pre.pixels.update(ny * pre.width + x, px),
                        ..pre
                    }));
                    lemma_put_pix(pre, x as int, ny as int, px);
                }
            }
            y = y + 1;
        }
        x = x + 1;
    }
}

/// Applies the vertical-mode warp in place; the phase of each row's
/// displacement is taken from the canvas width.
fn warp_v(i: &mut Image, f: u32, amp: u32)
    requires
        old(i)@.wf(),
        old(i)@.width >= 1,
        old(i)@.height >= 1,
    ensures
        final(i)@.wf(),
        final(i)@.same_size(old(i)@),
        forall|x: int, y: int|
            old(i)@.in_bounds(x, y) ==> #[trigger] final(i)@.pix(x, y) == warped_v(
                old(i)@,
                f as int,
                amp as int,
                x,
                y,
            ),
{
    let ghost orig: ImageV = i@;
    let snap = i.clone();
    i.clear();
    let w = i.width();
    let h = i.height();
    let mut y: u32 = 0;
    while y < h
        invariant
            y <= h,
            i@.wf(),
            i@.same_size(orig),
            orig.wf(),
            snap@ == orig,
            w == orig.width,
            h == orig.height,
            w >= 1,
            h >= 1,
            forall|a: int, b: int|
                orig.in_bounds(a, b) ==> #[trigger] i@.pix(a, b) == if b < y {
                    warped_v(orig, f as int, amp as int, a, b)
                } else {
                    Pixl::white_spec()
                },
        decreases h - y,
    {
        let s: i64 = shift_at(f, amp, y, w);
        let mut x: u32 = 0;
        while x < w
            invariant
                x <= w,
                y < h,
                i@.wf(),
                i@.same_size(orig),
                orig.wf(),
                snap@ == orig,
                w == orig.width,
                h == orig.height,
                w >= 1,
                h >= 1,
                s == wave_shift(f as int, amp as int, y as int, w as int),
                -(amp as int) <= s <= amp as int,
                forall|a: int, b: int|
                    orig.in_bounds(a, b) ==> #[trigger] i@.pix(a, b) == if b < y {
                        warped_v(orig, f as int, amp as int, a, b)
                    } else if b == y && 0 <= a + s < w && a + s < x {
                        orig.pix(a + s, b)
                    } else {
                        Pixl::white_spec()
                    },
            decreases w - x,
        {
            let nx: i64 = x as i64 - s;
            if 0 <= nx && nx < w as i64 {
                let px = snap.get_pixel(x, y);
                let ghost pre: ImageV = i@;
                i.put_pixel(nx as u32, y, px);
                proof {
                    assert(i@ =~= (ImageV {
                        pixels: pre.pixels.update(y * pre.width + nx, px),
                        ..pre
                    }));
                    lemma_put_pix(pre, nx as int, y as int, px);
                }
            }
            x = x + 1;
        }
        y = y + 1;
    }
}

/// Displaces pixels by a sinusoid of the given frequency and amplitude.
/// In horizontal mode every column is shifted vertically; in vertical mode
/// every row is shifted horizontally. Both modes take the sinusoid's phase
/// from the canvas width.
#[derive(Clone, Copy, Debug, PartialEq, Eq, Structural)]
pub struct Wave {
    pub f: u32,
    pub amp: u32,
    pub d: Direction,
}

impl Wave {
    pub fn new(f: u32, amp: u32) -> (w: Wave)
        ensures
            w == (Wave { f, amp, d: Direction::HORIZONTAL }),
    {
        Wave { f, amp, d: Direction::HORIZONTAL }
    }

    pub fn horizontal(self) -> (w: Wave)
        ensures
            w == (Wave { d: Direction::HORIZONTAL, ..self }),
    {
        Wave { d: Direction::HORIZONTAL, ..self }
    }

    pub fn vertical(self) -> (w: Wave)
        ensures
            w == (Wave { d: Direction::VERTICAL, ..self }),
    {
        Wave { d: Direction::VERTICAL, ..self }
    }

    pub fn direction(self, d: Direction) -> (w: Wave)
        ensures
            w == (Wave { d, ..self }),
    {
        Wave { d, ..self }
    }

    /// Frequency and amplitude must stay below 65535. They cannot be
    /// negative by construction.
    pub open spec fn valid(self, w: int, h: int) -> bool {
        self.f < 65535 && self.amp < 65535
    }

    pub fn validate(&self, viewbox: (u32, u32)) -> (r: Result<(), Error>)
        ensures
            r is Ok <==> self.valid(viewbox.0 as int, viewbox.1 as int),
            r is Err ==> (r matches Err(e) && e is InvalidParameter && e.kind()
                == FilterKind::Wave),
    {
        if self.f >= 65535 || self.amp >= 65535 {
            return Err(
                Error::InvalidParameter {
                    filter: FilterKind::Wave,
                    detail: "f and amp must be less than 65535 (u16::MAX)",
                },
            );
        }
        Ok(())
    }

    /// Warps the canvas along the chosen axis. With a zero frequency or a
    /// zero amplitude the canvas is unchanged.
    pub fn apply(&self, i: &mut Image) -> (r: Result<(), Error>)
        requires
            old(i)@.wf(),
        ensures
            r is Ok,
            wave_step(*self, old(i)@, final(i)@),
    {
        let ghost orig: ImageV = i@;
        let w = i.width();
        let h = i.height();
        if w == 0 || h == 0 {
            return Ok(());
        }
        match self.d {
            Direction::HORIZONTAL => warp_h(i, self.f, self.amp),
            Direction::VERTICAL => warp_v(i, self.f, self.amp),
        }
        proof {
            if self.f == 0 || self.amp == 0 {
                assert forall|x: int, y: int| orig.in_bounds(x, y) implies #[trigger] i@.pix(x, y)
                    == orig.pix(x, y) by {
                    lemma_wave_shift_zero(
                        self.f as int,
                        self.amp as int,
                        if self.d is HORIZONTAL {
                            x
                        } else {
                            y
                        },
                        orig.width as int,
                    );
                }
                lemma_pointwise_eq(i@, orig);
            }
        }
        Ok(())
    }
}

} // verus!
