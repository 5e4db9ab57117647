//! Integer rasterization of straight segments: each step moves one cell
//! along the segment's larger axis span while the other coordinate
//! interpolates with rounding.
use vstd::prelude::*;

verus! {

pub open spec fn abs_of(v: int) -> int {
    if v >= 0 {
        v
    } else {
        -v
    }
}

/// Rounded linear interpolation of a non-negative displacement `d` at
/// step `k` of `n`: `(2kd + n) / (2n)` is `k * d / n` rounded half up.
pub open spec fn interp_nn(d: int, k: int, n: int) -> int {
    (2 * (k * d) + n) / (2 * n)
}

/// Rounded linear interpolation of a signed displacement.
pub open spec fn interp(d: int, k: int, n: int) -> int {
    if d >= 0 {
        interp_nn(d, k, n)
    } else {
        -interp_nn(-d, k, n)
    }
}

/// The number of steps of the rasterized segment from `a` to `b`: its
/// larger axis span, so the segment is one cell per step.
pub open spec fn seg_steps(a: (i64, i64), b: (i64, i64)) -> int {
    let dx = abs_of(b.0 - a.0);
    let dy = abs_of(b.1 - a.1);
    if dx >= dy {
        dx
    } else {
        dy
    }
}

/// The `k`-th cell of the rasterized segment from `a` to `b`: both
/// coordinates interpolate linearly between the endpoints.
pub open spec fn seg_point(a: (i64, i64), b: (i64, i64), k: int) -> (int, int) {
    let n = seg_steps(a, b);
    if n == 0 {
        (a.0 as int, a.1 as int)
    } else {
        (a.0 + interp(b.0 - a.0, k, n), a.1 + interp(b.1 - a.1, k, n))
    }
}

/// `(x, y)` is a cell of the rasterized segment from `a` to `b`.
pub open spec fn on_segment(a: (i64, i64), b: (i64, i64), x: int, y: int) -> bool {
    exists|k: int| 0 <= k <= seg_steps(a, b) && seg_point(a, b, k) == (x, y)
}

/// `(x, y)` is among the first `m` cells of the rasterized segment.
pub open spec fn on_segment_prefix(a: (i64, i64), b: (i64, i64), m: int, x: int, y: int) -> bool {
    exists|k: int| 0 <= k < m && seg_point(a, b, k) == (x, y)
}

/// Covering every step of the segment covers exactly the segment.
pub proof fn lemma_prefix_full(a: (i64, i64), b: (i64, i64), x: int, y: int)
    ensures
        on_segment_prefix(a, b, seg_steps(a, b) + 1, x, y) <==> on_segment(a, b, x, y),
{
    if on_segment_prefix(a, b, seg_steps(a, b) + 1, x, y) {
        let k = choose|k: int| 0 <= k < seg_steps(a, b) + 1 && seg_point(a, b, k) == (x, y);
        assert(0 <= k <= seg_steps(a, b) && seg_point(a, b, k) == (x, y));
    }
    if on_segment(a, b, x, y) {
        let k = choose|k: int| 0 <= k <= seg_steps(a, b) && seg_point(a, b, k) == (x, y);
        assert(0 <= k < seg_steps(a, b) + 1 && seg_point(a, b, k) == (x, y));
    }
}

/// The rounded interpolation stays between 0 and the displacement.
pub proof fn lemma_interp_nn_bounds(d: int, k: int, n: int)
    requires
        0 <= d,
        0 <= k <= n,
        1 <= n,
    ensures
        0 <= interp_nn(d, k, n) <= d,
{
    let num = 2 * (k * d) + n;
    assert(0 <= k * d) by (nonlinear_arith)
        requires
            0 <= k,
            0 <= d,
    ;
    vstd::arithmetic::div_mod::lemma_div_pos_is_pos(num, 2 * n);
    assert(k * d <= n * d) by (nonlinear_arith)
        requires
            k <= n,
            0 <= d,
    ;
    assert((2 * n) * (d + 1) - 1 == d * (2 * n) + (2 * n - 1)) by (nonlinear_arith);
    assert(2 * (n * d) + n <= (2 * n) * (d + 1) - 1) by (nonlinear_arith)
        requires
            1 <= n,
    ;
    vstd::arithmetic::div_mod::lemma_div_is_ordered(num, (2 * n) * (d + 1) - 1, 2 * n);
    vstd::arithmetic::div_mod::lemma_fundamental_div_mod_converse(
        (2 * n) * (d + 1) - 1,
        2 * n,
        d,
        2 * n - 1,
    );
}

/// The interpolation is exact at both ends of the segment.
pub proof fn lemma_interp_nn_ends(d: int, n: int)
    requires
        0 <= d,
        1 <= n,
    ensures
        interp_nn(d, 0, n) == 0,
        interp_nn(d, n, n) == d,
{
    assert(2 * (0 * d) + n == 0 * (2 * n) + n) by (nonlinear_arith);
    vstd::arithmetic::div_mod::lemma_fundamental_div_mod_converse(
        2 * (0 * d) + n,
        2 * n,
        0,
        n,
    );
    assert(2 * (n * d) + n == d * (2 * n) + n) by (nonlinear_arith);
    vstd::arithmetic::div_mod::lemma_fundamental_div_mod_converse(
        2 * (n * d) + n,
        2 * n,
        d,
        n,
    );
}

/// The rasterized segment starts at `a` and ends at `b`.
pub proof fn lemma_seg_ends(a: (i64, i64), b: (i64, i64))
    ensures
        seg_point(a, b, 0) == (a.0 as int, a.1 as int),
        seg_point(a, b, seg_steps(a, b)) == (b.0 as int, b.1 as int),
{
    let n = seg_steps(a, b);
    if n == 0 {
        assert(b.0 == a.0 && b.1 == a.1);
    } else {
        lemma_interp_nn_ends(abs_of(b.0 - a.0), n);
        lemma_interp_nn_ends(abs_of(b.1 - a.1), n);
    }
}

/// Computes `interp_nn` in bounded arithmetic.
fn interp_exec(d: i64, k: i64, n: i64) -> (r: i64)
    requires
        0 <= d <= 0x400000000i64,
        0 <= k <= n,
        1 <= n <= 0x400000000i64,
    ensures
        r == interp_nn(d as int, k as int, n as int),
        0 <= r <= d,
{
    proof {
        assert(0 <= (k as int) * (d as int) <= 0x400000000i64 * 0x400000000i64)
            by (nonlinear_arith)
            requires
                0 <= k as int <= 0x400000000i64,
                0 <= d as int <= 0x400000000i64,
        ;
        lemma_interp_nn_bounds(d as int, k as int, n as int);
    }
    let num: i128 = 2 * ((k as i128) * (d as i128)) + (n as i128);
    let den: i128 = 2 * (n as i128);
    let q: i128 = num / den;
    q as i64
}

/// Computes the cells of the rasterized segment from `a` to `b`, in
/// order from `a` to `b`.
pub fn line_points(a: (i64, i64), b: (i64, i64)) -> (v: Vec<(i64, i64)>)
    requires
        -0x200000000i64 <= a.0 <= 0x200000000i64,
        -0x200000000i64 <= a.1 <= 0x200000000i64,
        -0x200000000i64 <= b.0 <= 0x200000000i64,
        -0x200000000i64 <= b.1 <= 0x200000000i64,
    ensures
        v@.len() == seg_steps(a, b) + 1,
        forall|k: int|
            0 <= k < v@.len() ==> ((#[trigger] v@[k]).0 == seg_point(a, b, k).0 && v@[k].1
                == seg_point(a, b, k).1),
        forall|k: int|
            0 <= k < v@.len() ==> -0x200000000i64 <= (#[trigger] v@[k]).0 <= 0x200000000i64
                && -0x200000000i64 <= v@[k].1 <= 0x200000000i64,
        v@.first() == a,
        v@.last() == b,
{
    proof {
        lemma_seg_ends(a, b);
    }
    let dx: i64 = b.0 - a.0;
    let dy: i64 = b.1 - a.1;
    let adx: i64 = if dx >= 0 {
        dx
    } else {
        -dx
    };
    let ady: i64 = if dy >= 0 {
        dy
    } else {
        -dy
    };
    let n: i64 = if adx >= ady {
        adx
    } else {
        ady
    };
    let mut v: Vec<(i64, i64)> = Vec::new();
    if n == 0 {
        v.push((a.0, a.1));
        proof {
            assert(seg_steps(a, b) == 0);
        }
        return v;
    }
    let sx: i64 = if dx >= 0 {
        1
    } else {
        -1
    };
    let sy: i64 = if dy >= 0 {
        1
    } else {
        -1
    };
    let mut k: i64 = 0;
    while k <= n
        invariant
            0 <= k <= n + 1,
            1 <= n <= 0x400000000i64,
            n == seg_steps(a, b),
            adx == abs_of(b.0 - a.0),
            ady == abs_of(b.1 - a.1),
            adx <= 0x400000000i64,
            ady <= 0x400000000i64,
            dx == b.0 - a.0,
            dy == b.1 - a.1,
            sx == if dx >= 0 { 1int } else { -1int },
            sy == if dy >= 0 { 1int } else { -1int },
            -0x200000000i64 <= a.0 <= 0x200000000i64,
            -0x200000000i64 <= a.1 <= 0x200000000i64,
            -0x200000000i64 <= b.0 <= 0x200000000i64,
            -0x200000000i64 <= b.1 <= 0x200000000i64,
            v@.len() == k,
            forall|m: int|
                0 <= m < k ==> ((#[trigger] v@[m]).0 == seg_point(a, b, m).0 && v@[m].1
                    == seg_point(a, b, m).1),
            forall|m: int|
                0 <= m < k ==> -0x200000000i64 <= (#[trigger] v@[m]).0 <= 0x200000000i64
                    && -0x200000000i64 <= v@[m].1 <= 0x200000000i64,
        decreases n + 1 - k,
    {
        let ox: i64 = interp_exec(adx, k, n);
        let oy: i64 = interp_exec(ady, k, n);
        let px: i64 = a.0 + sx * ox;
        let py: i64 = a.1 + sy * oy;
        proof {
            assert(sx * ox == interp(dx as int, k as int, n as int));
            assert(sy * oy == interp(dy as int, k as int, n as int));
            if dx >= 0 {
                assert(a.0 <= px <= b.0);
            } else {
                assert(b.0 <= px <= a.0);
            }
            if dy >= 0 {
                assert(a.1 <= py <= b.1);
            } else {
                assert(b.1 <= py <= a.1);
            }
        }
        v.push((px, py));
        k = k + 1;
    }
    v
}

} // verus!
