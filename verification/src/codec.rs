//! The persisted form of a filter chain: an ordered list of tagged
//! records, each a one-byte discriminant naming the filter variant
//! followed by its parameters in fixed-width little-endian fields.
//! Decoding accepts exactly the byte strings that encoding produces.
use vstd::prelude::*;

use crate::filters::{Filter, FilterChain};

verus! {

/// The four little-endian bytes of a value in `[0, 2^32)`.
pub open spec fn le_bytes(n: int) -> Seq<u8> {
    seq![
        (n % 256) as u8,
        ((n / 256) % 256) as u8,
        ((n / 65536) % 256) as u8,
        ((n / 16777216) % 256) as u8,
    ]
}

/// The value held by four little-endian bytes.
pub open spec fn dec4(b0: u8, b1: u8, b2: u8, b3: u8) -> int {
    b0 + 256 * (b1 + 256 * (b2 + 256 * b3))
}

/// Reading back the four bytes of `n` yields `n`.
pub proof fn lemma_le_roundtrip(n: int)
    requires
        0 <= n < 0x100000000,
    ensures
        dec4(le_bytes(n)[0], le_bytes(n)[1], le_bytes(n)[2], le_bytes(n)[3]) == n,
{
    let q1 = n / 256;
    let q2 = n / 65536;
    let q3 = n / 16777216;
    vstd::arithmetic::div_mod::lemma_fundamental_div_mod(n, 256);
    vstd::arithmetic::div_mod::lemma_fundamental_div_mod(q1, 256);
    vstd::arithmetic::div_mod::lemma_fundamental_div_mod(q2, 256);
    vstd::arithmetic::div_mod::lemma_mod_bound(n, 256);
    vstd::arithmetic::div_mod::lemma_mod_bound(q1, 256);
    vstd::arithmetic::div_mod::lemma_mod_bound(q2, 256);
    vstd::arithmetic::div_mod::lemma_div_denominator(n, 256, 256);
    vstd::arithmetic::div_mod::lemma_div_denominator(n, 65536, 256);
    assert(q2 == q1 / 256);
    assert(q3 == q2 / 256);
    assert(0 <= q3 < 256) by (nonlinear_arith)
        requires
            q3 == n / 16777216,
            0 <= n < 0x100000000,
    ;
    assert(q2 % 256 + 256 * q3 == q2);
}

/// The four bytes of the value read from four bytes are those bytes.
pub proof fn lemma_bytes_roundtrip(b0: u8, b1: u8, b2: u8, b3: u8)
    ensures
        le_bytes(dec4(b0, b1, b2, b3)) == seq![b0, b1, b2, b3],
        0 <= dec4(b0, b1, b2, b3) < 0x100000000,
{
    let n = dec4(b0, b1, b2, b3);
    assert(n == b0 + 256 * b1 + 65536 * b2 + 16777216 * b3);
    vstd::arithmetic::div_mod::lemma_fundamental_div_mod_converse(
        n,
        256,
        b1 + 256 * b2 + 65536 * b3,
        b0 as int,
    );
    vstd::arithmetic::div_mod::lemma_fundamental_div_mod_converse(
        n,
        65536,
        b2 + 256 * b3,
        b0 + 256 * b1,
    );
    vstd::arithmetic::div_mod::lemma_fundamental_div_mod_converse(
        n,
        16777216,
        b3 as int,
        b0 + 256 * b1 + 65536 * b2,
    );
    vstd::arithmetic::div_mod::lemma_fundamental_div_mod_converse(
        b1 + 256 * b2 + 65536 * b3,
        256,
        b2 + 256 * b3,
        b1 as int,
    );
    vstd::arithmetic::div_mod::lemma_fundamental_div_mod_converse(
        b2 + 256 * b3,
        256,
        b3 as int,
        b2 as int,
    );
    assert(le_bytes(n) =~= seq![b0, b1, b2, b3]);
}

/// Appends the four little-endian bytes of `v`.
fn push_u32(buf: &mut Vec<u8>, v: u32)
    ensures
        final(buf)@ == old(buf)@ + le_bytes(v as int),
{
    buf.push((v % 256) as u8);
    buf.push(((v / 256) % 256) as u8);
    buf.push(((v / 65536) % 256) as u8);
    buf.push(((v / 16777216) % 256) as u8);
    proof {
        assert(buf@ =~= old(buf)@ + le_bytes(v as int));
    }
}

/// A signed field is stored offset by `2^31`, so its bytes carry
/// `v + 2^31` in `[0, 2^32)`.
pub open spec fn enc_i32(v: i32) -> Seq<u8> {
    le_bytes(v + 0x80000000)
}

/// Appends the four offset little-endian bytes of `v`.
fn push_i32(buf: &mut Vec<u8>, v: i32)
    ensures
        final(buf)@ == old(buf)@ + enc_i32(v),
{
    let ev: u32 = ((v as i64) + 0x80000000i64) as u32;
    push_u32(buf, ev);
}

/// Reads the value of the four bytes at `pos`.
fn read_u32(bytes: &Vec<u8>, pos: usize) -> (r: u32)
    requires
        pos + 4 <= bytes@.len(),
    ensures
        r as int == dec4(bytes@[pos as int], bytes@[pos as int + 1], bytes@[pos as int + 2], bytes@[pos as int + 3]),
        le_bytes(r as int) == bytes@.subrange(pos as int, pos as int + 4),
{
    let n: usize = bytes.len();
    let b0 = bytes[pos];
    let b1 = bytes[pos + 1];
    let b2 = bytes[pos + 2];
    let b3 = bytes[pos + 3];
    proof {
        lemma_bytes_roundtrip(b0, b1, b2, b3);
        assert(bytes@.subrange(pos as int, pos as int + 4) =~= seq![b0, b1, b2, b3]);
    }
    (b0 as u32) + 256 * (b1 as u32) + 65536 * (b2 as u32) + 16777216 * (b3 as u32)
}

/// The tagged record of one filter: a one-byte discriminant followed by
/// the variant's parameters in fixed-width fields.
pub open spec fn enc_filter(f: Filter) -> Seq<u8> {
    match f {
        Filter::Noise(n) => seq![1u8] + le_bytes(n.prob as int),
        Filter::Grid(g) => seq![2u8] + le_bytes(g.x_gap as int) + le_bytes(g.y_gap as int),
        Filter::Line(l) => seq![3u8] + enc_i32(l.p1.x) + enc_i32(l.p1.y) + enc_i32(l.p2.x)
            + enc_i32(l.p2.y) + enc_i32(l.thickness) + seq![l.color.r, l.color.g, l.color.b],
        Filter::ColorInvert(_) => seq![4u8],
        Filter::Dots(d) => seq![5u8] + le_bytes(d.n as int) + le_bytes(d.min_radius as int)
            + le_bytes(d.max_radius as int),
        Filter::RandomLine(_) => seq![6u8],
        Filter::Wave(w) => seq![7u8] + le_bytes(w.f as int) + le_bytes(w.amp as int) + seq![
            if w.d is HORIZONTAL {
                0u8
            } else {
                1u8
            },
        ],
        Filter::Cow(c) => seq![8u8] + le_bytes(c.min_radius as int) + le_bytes(c.max_radius as int)
            + le_bytes(c.circles as int) + le_bytes(c.area.x_min as int) + le_bytes(
            c.area.x_max as int,
        ) + le_bytes(c.area.y_min as int) + le_bytes(c.area.y_max as int),
    }
}

/// The concatenated records of the filters of `s`, in order.
pub open spec fn enc_filters(s: Seq<Filter>) -> Seq<u8>
    decreases s.len(),
{
    if s.len() == 0 {
        Seq::empty()
    } else {
        enc_filter(s.first()) + enc_filters(s.drop_first())
    }
}

/// The persisted form of a chain: the number of filters, then their
/// records in order.
pub open spec fn enc_chain(s: Seq<Filter>) -> Seq<u8> {
    le_bytes(s.len() as int) + enc_filters(s)
}

/// Appending a filter appends its record.
pub proof fn lemma_enc_filters_snoc(s: Seq<Filter>, f: Filter)
    ensures
        enc_filters(s.push(f)) == enc_filters(s) + enc_filter(f),
    decreases s.len(),
{
    let g = s.push(f);
    if s.len() == 0 {
        assert(g.first() == f);
        assert(g.drop_first() =~= Seq::<Filter>::empty());
        assert(enc_filters(g.drop_first()) == Seq::<u8>::empty());
        assert(enc_filters(g) == enc_filter(f) + Seq::<u8>::empty());
        Seq::<u8>::add_empty_right(enc_filter(f), Seq::<u8>::empty());
        Seq::<u8>::add_empty_left(enc_filters(s), enc_filter(f));
    } else {
        assert(g.first() == s.first());
        assert(g.drop_first() =~= s.drop_first().push(f));
        lemma_enc_filters_snoc(s.drop_first(), f);
        vstd::seq_lib::lemma_concat_associative(
            enc_filter(s.first()),
            enc_filters(s.drop_first()),
            enc_filter(f),
        );
    }
}

/// The records of `s` are the records of its first `m` filters followed
/// by the records of the rest.
pub proof fn lemma_enc_filters_split(s: Seq<Filter>, m: int)
    requires
        0 <= m <= s.len(),
    ensures
        enc_filters(s) == enc_filters(s.take(m)) + enc_filters(s.skip(m)),
    decreases m,
{
    if m == 0 {
        assert(s.take(0) =~= Seq::<Filter>::empty());
        assert(s.skip(0) =~= s);
        assert(enc_filters(s) =~= enc_filters(s.take(0)) + enc_filters(s.skip(0)));
    } else {
        lemma_enc_filters_split(s, m - 1);
        assert(s.take(m) =~= s.take(m - 1).push(s[m - 1]));
        lemma_enc_filters_snoc(s.take(m - 1), s[m - 1]);
        assert(s.skip(m - 1).len() > 0);
        assert(s.skip(m - 1).first() == s[m - 1]);
        assert(s.skip(m - 1).drop_first() =~= s.skip(m));
        assert(enc_filters(s.skip(m - 1)) == enc_filter(s[m - 1]) + enc_filters(s.skip(m)));
        assert(enc_filters(s) =~= enc_filters(s.take(m)) + enc_filters(s.skip(m)));
    }
}

/// Appends the tagged record of `f`.
fn encode_filter(buf: &mut Vec<u8>, f: &Filter)
    ensures
        final(buf)@ == old(buf)@ + enc_filter(*f),
{
    match f {
        Filter::Noise(n) => {
            buf.push(1);
            push_u32(buf, n.prob);
        },
        Filter::Grid(g) => {
            buf.push(2);
            push_u32(buf, g.x_gap);
            push_u32(buf, g.y_gap);
        },
        Filter::Line(l) => {
            buf.push(3);
            push_i32(buf, l.p1.x);
            push_i32(buf, l.p1.y);
            push_i32(buf, l.p2.x);
            push_i32(buf, l.p2.y);
            push_i32(buf, l.thickness);
            buf.push(l.color.r);
            buf.push(l.color.g);
            buf.push(l.color.b);
        },
        Filter::ColorInvert(_) => {
            buf.push(4);
        },
        Filter::Dots(d) => {
            buf.push(5);
            push_u32(buf, d.n);
            push_u32(buf, d.min_radius);
            push_u32(buf, d.max_radius);
        },
        Filter::RandomLine(_) => {
            buf.push(6);
        },
        Filter::Wave(w) => {
            buf.push(7);
            push_u32(buf, w.f);
            push_u32(buf, w.amp);
            match w.d {
                crate::filters::Direction::HORIZONTAL => buf.push(0),
                crate::filters::Direction::VERTICAL => buf.push(1),
            }
        },
        Filter::Cow(c) => {
            buf.push(8);
            push_u32(buf, c.min_radius);
            push_u32(buf, c.max_radius);
            push_u32(buf, c.circles);
            push_u32(buf, c.area.x_min);
            push_u32(buf, c.area.x_max);
            push_u32(buf, c.area.y_min);
            push_u32(buf, c.area.y_max);
        },
    }
    proof {
        assert(buf@ =~= old(buf)@ + enc_filter(*f));
    }
}

/// Serializes a chain to its persisted byte form.
pub fn encode_chain(c: &FilterChain) -> (v: Vec<u8>)
    requires
        c.filters@.len() <= u32::MAX,
    ensures
        v@ == enc_chain(c.filters@),
{
    let s = c.filters.len();
    let mut v: Vec<u8> = Vec::new();
    push_u32(&mut v, s as u32);
    let mut k: usize = 0;
    while k < s
        invariant
            k <= s,
            s == c.filters@.len(),
            v@ == le_bytes(s as int) + enc_filters(c.filters@.take(k as int)),
        decreases s - k,
    {
        encode_filter(&mut v, &c.filters[k]);
        proof {
            let ki = k as int;
            assert(c.filters@.take(ki + 1) =~= c.filters@.take(ki).push(c.filters@[ki]));
            lemma_enc_filters_snoc(c.filters@.take(ki), c.filters@[ki]);
            assert(v@ =~= le_bytes(s as int) + enc_filters(c.filters@.take(ki + 1)));
        }
        k = k + 1;
    }
    proof {
        assert(c.filters@.take(s as int) =~= c.filters@);
        assert(v@ =~= enc_chain(c.filters@));
    }
    v
}

/// Reads a signed field stored offset by `2^31` at `pos`.
fn read_i32(bytes: &Vec<u8>, pos: usize) -> (r: i32)
    requires
        pos + 4 <= bytes@.len(),
    ensures
        enc_i32(r) == bytes@.subrange(pos as int, pos as int + 4),
{
    let ev = read_u32(bytes, pos);
    ((ev as i64) - 0x80000000i64) as i32
}

/// The record of `f` stands at `pos` in `bytes`.
pub open spec fn record_at(bytes: Seq<u8>, pos: int, f: Filter) -> bool {
    pos + enc_filter(f).len() <= bytes.len() && bytes.subrange(pos, pos + enc_filter(f).len())
        == enc_filter(f)
}

/// A record's first byte is its discriminant, visible in the buffer.
proof fn lemma_record_tag(bytes: Seq<u8>, pos: int, f: Filter)
    requires
        0 <= pos,
        record_at(bytes, pos, f),
    ensures
        bytes[pos] == enc_filter(f)[0],
{
    assert(bytes.subrange(pos, pos + enc_filter(f).len())[0] == bytes[pos]);
}

/// Two values whose four-byte fields coincide are equal.
proof fn lemma_field_eq(bytes: Seq<u8>, o: int, a: int, b: int)
    requires
        0 <= a < 0x100000000,
        0 <= b < 0x100000000,
        le_bytes(a) == bytes.subrange(o, o + 4),
        le_bytes(b) == bytes.subrange(o, o + 4),
    ensures
        a == b,
{
    lemma_le_roundtrip(a);
    lemma_le_roundtrip(b);
}

/// Reads the record of a noise filter standing at `pos`.
fn dec_noise(bytes: &Vec<u8>, pos: usize) -> (r: Option<(Filter, usize)>)
    requires
        pos < bytes@.len(),
        bytes@[pos as int] == 1,
    ensures
        r matches Some(p) ==> pos < p.1 <= bytes@.len() && bytes@.subrange(pos as int, p.1 as int)
            == enc_filter(p.0),
        forall|f: Filter|
            record_at(bytes@, pos as int, f) ==> (r matches Some(p) && p.0 == f && p.1 == pos
                + enc_filter(f).len()),
{
    let n = bytes.len();
    let ghost pi: int = pos as int;
    if n - pos < 5 {
        proof {
            assert forall|f: Filter| !record_at(bytes@, pi, f) by {
                if record_at(bytes@, pi, f) {
                    lemma_record_tag(bytes@, pi, f);
                    assert(f is Noise);
                    assert(enc_filter(f).len() == 5);
                }
            }
        }
        return None;
    }
    let prob = read_u32(bytes, pos + 1);
    let g = Filter::Noise(crate::filters::Noise { prob });
    proof {
        assert(bytes@.subrange(pi, pi + 5) =~= enc_filter(g));
        assert forall|f: Filter| record_at(bytes@, pi, f) implies f == g && enc_filter(f).len()
            == 5 by {
            lemma_record_tag(bytes@, pi, f);
            assert(f is Noise);
            let nn = f->Noise_0;
            assert(enc_filter(f).subrange(1, 5) =~= le_bytes(nn.prob as int));
            assert(bytes@.subrange(pi + 1, pi + 5) =~= bytes@.subrange(pi, pi + 5).subrange(1, 5));
            lemma_field_eq(bytes@, pi + 1, nn.prob as int, prob as int);
        }
    }
    Some((g, pos + 5))
}

/// Reads the record of a grid filter standing at `pos`.
fn dec_grid(bytes: &Vec<u8>, pos: usize) -> (r: Option<(Filter, usize)>)
    requires
        pos < bytes@.len(),
        bytes@[pos as int] == 2,
    ensures
        r matches Some(p) ==> pos < p.1 <= bytes@.len() && bytes@.subrange(pos as int, p.1 as int)
            == enc_filter(p.0),
        forall|f: Filter|
            record_at(bytes@, pos as int, f) ==> (r matches Some(p) && p.0 == f && p.1 == pos
                + enc_filter(f).len()),
{
    let n = bytes.len();
    let ghost pi: int = pos as int;
    if n - pos < 9 {
        proof {
            assert forall|f: Filter| !record_at(bytes@, pi, f) by {
                if record_at(bytes@, pi, f) {
                    lemma_record_tag(bytes@, pi, f);
                    assert(f is Grid);
                    assert(enc_filter(f).len() == 9);
                }
            }
        }
        return None;
    }
    let x_gap = read_u32(bytes, pos + 1);
    let y_gap = read_u32(bytes, pos + 5);
    let g = Filter::Grid(crate::filters::Grid { x_gap, y_gap });
    proof {
        assert(bytes@.subrange(pi, pi + 9) =~= enc_filter(g));
        assert forall|f: Filter| record_at(bytes@, pi, f) implies f == g && enc_filter(f).len()
            == 9 by {
            lemma_record_tag(bytes@, pi, f);
            assert(f is Grid);
            let gg = f->Grid_0;
            assert(enc_filter(f).subrange(1, 5) =~= le_bytes(gg.x_gap as int));
            assert(enc_filter(f).subrange(5, 9) =~= le_bytes(gg.y_gap as int));
            assert(bytes@.subrange(pi + 1, pi + 5) =~= bytes@.subrange(pi, pi + 9).subrange(1, 5));
            assert(bytes@.subrange(pi + 5, pi + 9) =~= bytes@.subrange(pi, pi + 9).subrange(5, 9));
            lemma_field_eq(bytes@, pi + 1, gg.x_gap as int, x_gap as int);
            lemma_field_eq(bytes@, pi + 5, gg.y_gap as int, y_gap as int);
        }
    }
    Some((g, pos + 9))
}

/// Reads the record of a line filter standing at `pos`.
#[verifier::rlimit(50)]
fn dec_line(bytes: &Vec<u8>, pos: usize) -> (r: Option<(Filter, usize)>)
    requires
        pos < bytes@.len(),
        bytes@[pos as int] == 3,
    ensures
        r matches Some(p) ==> pos < p.1 <= bytes@.len() && bytes@.subrange(pos as int, p.1 as int)
            == enc_filter(p.0),
        forall|f: Filter|
            record_at(bytes@, pos as int, f) ==> (r matches Some(p) && p.0 == f && p.1 == pos
                + enc_filter(f).len()),
{
    let n = bytes.len();
    let ghost pi: int = pos as int;
    if n - pos < 24 {
        proof {
            assert forall|f: Filter| !record_at(bytes@, pi, f) by {
                if record_at(bytes@, pi, f) {
                    lemma_record_tag(bytes@, pi, f);
                    assert(f is Line);
                    assert(enc_filter(f).len() == 24);
                }
            }
        }
        return None;
    }
    let p1x = read_i32(bytes, pos + 1);
    let p1y = read_i32(bytes, pos + 5);
    let p2x = read_i32(bytes, pos + 9);
    let p2y = read_i32(bytes, pos + 13);
    let thickness = read_i32(bytes, pos + 17);
    let cr = bytes[pos + 21];
    let cg = bytes[pos + 22];
    let cb = bytes[pos + 23];
    let g = Filter::Line(
        crate::filters::Line {
            p1: crate::filters::line::Pt { x: p1x, y: p1y },
            p2: crate::filters::line::Pt { x: p2x, y: p2y },
            thickness,
            color: crate::filters::SerdeColor { r: cr, g: cg, b: cb },
        },
    );
    proof {
        assert(bytes@.subrange(pi, pi + 24) =~= enc_filter(g));
        assert forall|f: Filter| record_at(bytes@, pi, f) implies f == g && enc_filter(f).len()
            == 24 by {
            lemma_record_tag(bytes@, pi, f);
            assert(f is Line);
            let ll = f->Line_0;
            assert(enc_filter(f).subrange(1, 5) =~= enc_i32(ll.p1.x));
            assert(enc_filter(f).subrange(5, 9) =~= enc_i32(ll.p1.y));
            assert(enc_filter(f).subrange(9, 13) =~= enc_i32(ll.p2.x));
            assert(enc_filter(f).subrange(13, 17) =~= enc_i32(ll.p2.y));
            assert(enc_filter(f).subrange(17, 21) =~= enc_i32(ll.thickness));
            assert(bytes@.subrange(pi + 1, pi + 5) =~= bytes@.subrange(pi, pi + 24).subrange(1, 5));
            assert(bytes@.subrange(pi + 5, pi + 9) =~= bytes@.subrange(pi, pi + 24).subrange(5, 9));
            assert(bytes@.subrange(pi + 9, pi + 13) =~= bytes@.subrange(pi, pi + 24).subrange(
                9,
                13,
            ));
            assert(bytes@.subrange(pi + 13, pi + 17) =~= bytes@.subrange(pi, pi + 24).subrange(
                13,
                17,
            ));
            assert(bytes@.subrange(pi + 17, pi + 21) =~= bytes@.subrange(pi, pi + 24).subrange(
                17,
                21,
            ));
            lemma_field_eq(bytes@, pi + 1, ll.p1.x + 0x80000000, p1x + 0x80000000);
            lemma_field_eq(bytes@, pi + 5, ll.p1.y + 0x80000000, p1y + 0x80000000);
            lemma_field_eq(bytes@, pi + 9, ll.p2.x + 0x80000000, p2x + 0x80000000);
            lemma_field_eq(bytes@, pi + 13, ll.p2.y + 0x80000000, p2y + 0x80000000);
            lemma_field_eq(bytes@, pi + 17, ll.thickness + 0x80000000, thickness + 0x80000000);
            assert(bytes@.subrange(pi, pi + 24)[21] == bytes@[pi + 21]);
            assert(bytes@.subrange(pi, pi + 24)[22] == bytes@[pi + 22]);
            assert(bytes@.subrange(pi, pi + 24)[23] == bytes@[pi + 23]);
            assert(enc_filter(f)[21] == ll.color.r);
            assert(enc_filter(f)[22] == ll.color.g);
            assert(enc_filter(f)[23] == ll.color.b);
        }
    }
    Some((g, pos + 24))
}

/// Reads the record of a dots filter standing at `pos`.
fn dec_dots(bytes: &Vec<u8>, pos: usize) -> (r: Option<(Filter, usize)>)
    requires
        pos < bytes@.len(),
        bytes@[pos as int] == 5,
    ensures
        r matches Some(p) ==> pos < p.1 <= bytes@.len() && bytes@.subrange(pos as int, p.1 as int)
            == enc_filter(p.0),
        forall|f: Filter|
            record_at(bytes@, pos as int, f) ==> (r matches Some(p) && p.0 == f && p.1 == pos
                + enc_filter(f).len()),
{
    let n = bytes.len();
    let ghost pi: int = pos as int;
    if n - pos < 13 {
        proof {
            assert forall|f: Filter| !record_at(bytes@, pi, f) by {
                if record_at(bytes@, pi, f) {
                    lemma_record_tag(bytes@, pi, f);
                    assert(f is Dots);
                    assert(enc_filter(f).len() == 13);
                }
            }
        }
        return None;
    }
    let nn = read_u32(bytes, pos + 1);
    let min_radius = read_u32(bytes, pos + 5);
    let max_radius = read_u32(bytes, pos + 9);
    let g = Filter::Dots(crate::filters::Dots { n: nn, min_radius, max_radius });
    proof {
        assert(bytes@.subrange(pi, pi + 13) =~= enc_filter(g));
        assert forall|f: Filter| record_at(bytes@, pi, f) implies f == g && enc_filter(f).len()
            == 13 by {
            lemma_record_tag(bytes@, pi, f);
            assert(f is Dots);
            let dd = f->Dots_0;
            assert(enc_filter(f).subrange(1, 5) =~= le_bytes(dd.n as int));
            assert(enc_filter(f).subrange(5, 9) =~= le_bytes(dd.min_radius as int));
            assert(enc_filter(f).subrange(9, 13) =~= le_bytes(dd.max_radius as int));
            assert(bytes@.subrange(pi + 1, pi + 5) =~= bytes@.subrange(pi, pi + 13).subrange(1, 5));
            assert(bytes@.subrange(pi + 5, pi + 9) =~= bytes@.subrange(pi, pi + 13).subrange(5, 9));
            assert(bytes@.subrange(pi + 9, pi + 13) =~= bytes@.subrange(pi, pi + 13).subrange(
                9,
                13,
            ));
            lemma_field_eq(bytes@, pi + 1, dd.n as int, nn as int);
            lemma_field_eq(bytes@, pi + 5, dd.min_radius as int, min_radius as int);
            lemma_field_eq(bytes@, pi + 9, dd.max_radius as int, max_radius as int);
        }
    }
    Some((g, pos + 13))
}

/// Reads the record of a wave filter standing at `pos`.
#[verifier::rlimit(50)]
fn dec_wave(bytes: &Vec<u8>, pos: usize) -> (r: Option<(Filter, usize)>)
    requires
        pos < bytes@.len(),
        bytes@[pos as int] == 7,
    ensures
        r matches Some(p) ==> pos < p.1 <= bytes@.len() && bytes@.subrange(pos as int, p.1 as int)
            == enc_filter(p.0),
        forall|f: Filter|
            record_at(bytes@, pos as int, f) ==> (r matches Some(p) && p.0 == f && p.1 == pos
                + enc_filter(f).len()),
{
    let n = bytes.len();
    let ghost pi: int = pos as int;
    if n - pos < 10 {
        proof {
            assert forall|f: Filter| !record_at(bytes@, pi, f) by {
                if record_at(bytes@, pi, f) {
                    lemma_record_tag(bytes@, pi, f);
                    assert(f is Wave);
                    assert(enc_filter(f).len() == 10);
                }
            }
        }
        return None;
    }
    let wf = read_u32(bytes, pos + 1);
    let amp = read_u32(bytes, pos + 5);
    let db = bytes[pos + 9];
    if db >= 2 {
        proof {
            assert forall|f: Filter| !record_at(bytes@, pi, f) by {
                if record_at(bytes@, pi, f) {
                    lemma_record_tag(bytes@, pi, f);
                    assert(f is Wave);
                    assert(bytes@.subrange(pi, pi + 10)[9] == bytes@[pi + 9]);
                    assert(enc_filter(f)[9] == 0 || enc_filter(f)[9] == 1);
                }
            }
        }
        return None;
    }
    let d = if db == 0 {
        crate::filters::Direction::HORIZONTAL
    } else {
        crate::filters::Direction::VERTICAL
    };
    let g = Filter::Wave(crate::filters::Wave { f: wf, amp, d });
    proof {
        assert(bytes@.subrange(pi, pi + 10) =~= enc_filter(g));
        assert forall|f: Filter| record_at(bytes@, pi, f) implies f == g && enc_filter(f).len()
            == 10 by {
            lemma_record_tag(bytes@, pi, f);
            assert(f is Wave);
            let ww = f->Wave_0;
            assert(enc_filter(f).subrange(1, 5) =~= le_bytes(ww.f as int));
            assert(enc_filter(f).subrange(5, 9) =~= le_bytes(ww.amp as int));
            assert(bytes@.subrange(pi + 1, pi + 5) =~= bytes@.subrange(pi, pi + 10).subrange(1, 5));
            assert(bytes@.subrange(pi + 5, pi + 9) =~= bytes@.subrange(pi, pi + 10).subrange(5, 9));
            lemma_field_eq(bytes@, pi + 1, ww.f as int, wf as int);
            lemma_field_eq(bytes@, pi + 5, ww.amp as int, amp as int);
            assert(bytes@.subrange(pi, pi + 10)[9] == bytes@[pi + 9]);
            assert(enc_filter(f)[9] == if ww.d is HORIZONTAL {
                0u8
            } else {
                1u8
            });
        }
    }
    Some((g, pos + 10))
}

/// The buffer holds exactly the record of the occlusion filter built
/// from the seven fields read at their offsets.
#[verifier::rlimit(100)]
proof fn lemma_cow_sound(bytes: Seq<u8>, pos: int, g: Filter)
    requires
        0 <= pos,
        pos + 29 <= bytes.len(),
        bytes[pos] == 8,
        g is Cow,
        le_bytes(g->Cow_0.min_radius as int) == bytes.subrange(pos + 1, pos + 5),
        le_bytes(g->Cow_0.max_radius as int) == bytes.subrange(pos + 5, pos + 9),
        le_bytes(g->Cow_0.circles as int) == bytes.subrange(pos + 9, pos + 13),
        le_bytes(g->Cow_0.area.x_min as int) == bytes.subrange(pos + 13, pos + 17),
        le_bytes(g->Cow_0.area.x_max as int) == bytes.subrange(pos + 17, pos + 21),
        le_bytes(g->Cow_0.area.y_min as int) == bytes.subrange(pos + 21, pos + 25),
        le_bytes(g->Cow_0.area.y_max as int) == bytes.subrange(pos + 25, pos + 29),
    ensures
        bytes.subrange(pos, pos + 29) == enc_filter(g),
{
    assert(bytes.subrange(pos, pos + 29) =~= enc_filter(g));
}

/// Any record standing where an occlusion record was read is that record.
#[verifier::rlimit(100)]
proof fn lemma_cow_complete(bytes: Seq<u8>, pos: int, f: Filter, g: Filter)
    requires
        0 <= pos,
        record_at(bytes, pos, f),
        bytes[pos] == 8,
        g is Cow,
        le_bytes(g->Cow_0.min_radius as int) == bytes.subrange(pos + 1, pos + 5),
        le_bytes(g->Cow_0.max_radius as int) == bytes.subrange(pos + 5, pos + 9),
        le_bytes(g->Cow_0.circles as int) == bytes.subrange(pos + 9, pos + 13),
        le_bytes(g->Cow_0.area.x_min as int) == bytes.subrange(pos + 13, pos + 17),
        le_bytes(g->Cow_0.area.x_max as int) == bytes.subrange(pos + 17, pos + 21),
        le_bytes(g->Cow_0.area.y_min as int) == bytes.subrange(pos + 21, pos + 25),
        le_bytes(g->Cow_0.area.y_max as int) == bytes.subrange(pos + 25, pos + 29),
    ensures
        f == g,
        enc_filter(f).len() == 29,
{
    lemma_record_tag(bytes, pos, f);
    assert(f is Cow);
    let cc = f->Cow_0;
    assert(enc_filter(f).subrange(1, 5) =~= le_bytes(cc.min_radius as int));
    assert(enc_filter(f).subrange(5, 9) =~= le_bytes(cc.max_radius as int));
    assert(enc_filter(f).subrange(9, 13) =~= le_bytes(cc.circles as int));
    assert(enc_filter(f).subrange(13, 17) =~= le_bytes(cc.area.x_min as int));
    assert(enc_filter(f).subrange(17, 21) =~= le_bytes(cc.area.x_max as int));
    assert(enc_filter(f).subrange(21, 25) =~= le_bytes(cc.area.y_min as int));
    assert(enc_filter(f).subrange(25, 29) =~= le_bytes(cc.area.y_max as int));
    assert(bytes.subrange(pos + 1, pos + 5) =~= bytes.subrange(pos, pos + 29).subrange(1, 5));
    assert(bytes.subrange(pos + 5, pos + 9) =~= bytes.subrange(pos, pos + 29).subrange(5, 9));
    assert(bytes.subrange(pos + 9, pos + 13) =~= bytes.subrange(pos, pos + 29).subrange(9, 13));
    assert(bytes.subrange(pos + 13, pos + 17) =~= bytes.subrange(pos, pos + 29).subrange(13, 17));
    assert(bytes.subrange(pos + 17, pos + 21) =~= bytes.subrange(pos, pos + 29).subrange(17, 21));
    assert(bytes.subrange(pos + 21, pos + 25) =~= bytes.subrange(pos, pos + 29).subrange(21, 25));
    assert(bytes.subrange(pos + 25, pos + 29) =~= bytes.subrange(pos, pos + 29).subrange(25, 29));
    lemma_field_eq(bytes, pos + 1, cc.min_radius as int, g->Cow_0.min_radius as int);
    lemma_field_eq(bytes, pos + 5, cc.max_radius as int, g->Cow_0.max_radius as int);
    lemma_field_eq(bytes, pos + 9, cc.circles as int, g->Cow_0.circles as int);
    lemma_field_eq(bytes, pos + 13, cc.area.x_min as int, g->Cow_0.area.x_min as int);
    lemma_field_eq(bytes, pos + 17, cc.area.x_max as int, g->Cow_0.area.x_max as int);
    lemma_field_eq(bytes, pos + 21, cc.area.y_min as int, g->Cow_0.area.y_min as int);
    lemma_field_eq(bytes, pos + 25, cc.area.y_max as int, g->Cow_0.area.y_max as int);
}

/// Reads the record of an occlusion filter standing at `pos`.
fn dec_cow(bytes: &Vec<u8>, pos: usize) -> (r: Option<(Filter, usize)>)
    requires
        pos < bytes@.len(),
        bytes@[pos as int] == 8,
    ensures
        r matches Some(p) ==> pos < p.1 <= bytes@.len() && bytes@.subrange(pos as int, p.1 as int)
            == enc_filter(p.0),
        forall|f: Filter|
            record_at(bytes@, pos as int, f) ==> (r matches Some(p) && p.0 == f && p.1 == pos
                + enc_filter(f).len()),
{
    let n = bytes.len();
    let ghost pi: int = pos as int;
    if n - pos < 29 {
        proof {
            assert forall|f: Filter| !record_at(bytes@, pi, f) by {
                if record_at(bytes@, pi, f) {
                    lemma_record_tag(bytes@, pi, f);
                    assert(f is Cow);
                    assert(enc_filter(f).len() == 29);
                }
            }
        }
        return None;
    }
    let min_radius = read_u32(bytes, pos + 1);
    let max_radius = read_u32(bytes, pos + 5);
    let circles = read_u32(bytes, pos + 9);
    let x_min = read_u32(bytes, pos + 13);
    let x_max = read_u32(bytes, pos + 17);
    let y_min = read_u32(bytes, pos + 21);
    let y_max = read_u32(bytes, pos + 25);
    let g = Filter::Cow(
        crate::filters::Cow {
            min_radius,
            max_radius,
            circles,
            area: crate::filters::Geometry { x_min, x_max, y_min, y_max },
        },
    );
    proof {
        lemma_cow_sound(bytes@, pi, g);
        assert forall|f: Filter| record_at(bytes@, pi, f) implies f == g && enc_filter(f).len()
            == 29 by {
            lemma_cow_complete(bytes@, pi, f, g);
        }
    }
    Some((g, pos + 29))
}

/// Reads one tagged record at `pos`: it succeeds on exactly the byte
/// strings that `enc_filter` produces, and consumes exactly the record.
fn decode_filter(bytes: &Vec<u8>, pos: usize) -> (r: Option<(Filter, usize)>)
    requires
        pos <= bytes@.len(),
    ensures
        r matches Some(p) ==> pos < p.1 <= bytes@.len() && bytes@.subrange(pos as int, p.1 as int)
            == enc_filter(p.0),
        forall|f: Filter|
            record_at(bytes@, pos as int, f) ==> (r matches Some(p) && p.0 == f && p.1 == pos
                + enc_filter(f).len()),
{
    let n = bytes.len();
    let ghost pi: int = pos as int;
    if pos >= n {
        proof {
            assert forall|f: Filter| !record_at(bytes@, pi, f) by {
                if record_at(bytes@, pi, f) {
                    assert(enc_filter(f).len() >= 1);
                }
            }
        }
        return None;
    }
    let tag = bytes[pos];
    if tag == 1 {
        dec_noise(bytes, pos)
    } else if tag == 2 {
        dec_grid(bytes, pos)
    } else if tag == 3 {
        dec_line(bytes, pos)
    } else if tag == 4 {
        let g = Filter::ColorInvert(crate::filters::ColorInvert {  });
        proof {
            assert(bytes@.subrange(pi, pi + 1) =~= enc_filter(g));
            assert forall|f: Filter| record_at(bytes@, pi, f) implies f == g && enc_filter(f).len()
                == 1 by {
                lemma_record_tag(bytes@, pi, f);
                assert(f is ColorInvert);
            }
        }
        Some((g, pos + 1))
    } else if tag == 5 {
        dec_dots(bytes, pos)
    } else if tag == 6 {
        let g = Filter::RandomLine(crate::filters::RandomLine {  });
        proof {
            assert(bytes@.subrange(pi, pi + 1) =~= enc_filter(g));
            assert forall|f: Filter| record_at(bytes@, pi, f) implies f == g && enc_filter(f).len()
                == 1 by {
                lemma_record_tag(bytes@, pi, f);
                assert(f is RandomLine);
            }
        }
        Some((g, pos + 1))
    } else if tag == 7 {
        dec_wave(bytes, pos)
    } else if tag == 8 {
        dec_cow(bytes, pos)
    } else {
        proof {
            assert forall|f: Filter| !record_at(bytes@, pi, f) by {
                if record_at(bytes@, pi, f) {
                    lemma_record_tag(bytes@, pi, f);
                }
            }
        }
        None
    }
}

/// A concatenation's middle part stands at its offset.
proof fn lemma_concat_mid(a: Seq<u8>, b: Seq<u8>, c: Seq<u8>)
    ensures
        (a + (b + c)).subrange(a.len() as int, a.len() + b.len() as int) == b,
{
    assert((a + (b + c)).subrange(a.len() as int, a.len() + b.len() as int) =~= b);
}

/// A subrange splits at any interior point.
proof fn lemma_subrange_concat(s: Seq<u8>, i: int, j: int, k: int)
    requires
        0 <= i <= j <= k <= s.len(),
    ensures
        s.subrange(i, k) == s.subrange(i, j) + s.subrange(j, k),
{
    assert(s.subrange(i, k) =~= s.subrange(i, j) + s.subrange(j, k));
}

/// In the persisted form of `s`, the record of filter `k` stands right
/// after the count field and the records of the filters before it.
proof fn lemma_chain_decomp(bytes: Seq<u8>, s: Seq<Filter>, k: int)
    requires
        0 <= k < s.len(),
        bytes == enc_chain(s),
    ensures
        record_at(bytes, 4 + enc_filters(s.take(k)).len() as int, s[k]),
        enc_filters(s.take(k + 1)).len() == enc_filters(s.take(k)).len() + enc_filter(
            s[k],
        ).len(),
{
    lemma_enc_filters_split(s, k);
    assert(s.skip(k).len() > 0);
    assert(s.skip(k).first() == s[k]);
    assert(s.skip(k).drop_first() =~= s.skip(k + 1));
    assert(enc_filters(s.skip(k)) == enc_filter(s[k]) + enc_filters(s.skip(k + 1)));
    let hdr = le_bytes(s.len() as int);
    let pre = enc_filters(s.take(k));
    let mid = enc_filter(s[k]);
    let suf = enc_filters(s.skip(k + 1));
    vstd::seq_lib::lemma_concat_associative(hdr, pre, mid + suf);
    assert(bytes == (hdr + pre) + (mid + suf));
    lemma_concat_mid(hdr + pre, mid, suf);
    assert((hdr + pre).len() == 4 + pre.len());
    assert(s.take(k + 1) =~= s.take(k).push(s[k]));
    lemma_enc_filters_snoc(s.take(k), s[k]);
}

/// Reconstructs a chain from its persisted byte form. Decoding succeeds
/// on exactly the byte strings that `encode_chain` produces, and yields
/// the chain that was encoded: the codec round-trips.
pub fn decode_chain(bytes: &Vec<u8>) -> (r: Option<FilterChain>)
    ensures
        r matches Some(c) ==> bytes@ == enc_chain(c.filters@),
        forall|s: Seq<Filter>|
            bytes@ == enc_chain(s) && s.len() <= u32::MAX ==> (r matches Some(c) && c.filters@
                == s),
{
    let n = bytes.len();
    if n < 4 {
        proof {
            assert forall|s: Seq<Filter>| bytes@ != enc_chain(s) by {
                assert(enc_chain(s).len() >= 4);
            }
        }
        return None;
    }
    let count = read_u32(bytes, 0);
    proof {
        assert forall|s: Seq<Filter>|
            bytes@ == enc_chain(s) && s.len() <= u32::MAX implies s.len() == count
            && s.take(0) == Seq::<Filter>::empty() by {
            assert(bytes@.subrange(0, 4) =~= le_bytes(s.len() as int));
            lemma_field_eq(bytes@, 0, s.len() as int, count as int);
            assert(s.take(0) =~= Seq::<Filter>::empty());
        }
        assert(enc_filters(Seq::<Filter>::empty()) == Seq::<u8>::empty());
        Seq::<u8>::add_empty_right(le_bytes(count as int), Seq::<u8>::empty());
        assert(bytes@.subrange(0, 4) == le_bytes(count as int) + enc_filters(
            Seq::<Filter>::empty(),
        ));
    }
    let mut filters: Vec<Filter> = Vec::new();
    let mut pos: usize = 4;
    let mut k: u32 = 0;
    while k < count
        invariant
            k <= count,
            4 <= pos <= n,
            n == bytes@.len(),
            filters@.len() == k,
            le_bytes(count as int) == bytes@.subrange(0, 4),
            pos as int == 4 + enc_filters(filters@).len(),
            bytes@.subrange(0, pos as int) == le_bytes(count as int) + enc_filters(filters@),
            forall|s: Seq<Filter>|
                bytes@ == enc_chain(s) && s.len() <= u32::MAX ==> s.len() == count && s.take(
                    k as int,
                ) == filters@,
        decreases count - k,
    {
        let step = decode_filter(bytes, pos);
        match step {
            None => {
                proof {
                    assert forall|s: Seq<Filter>|
                        !(bytes@ == enc_chain(s) && s.len() <= u32::MAX) by {
                        if bytes@ == enc_chain(s) && s.len() <= u32::MAX {
                            assert(s.len() == count && s.take(k as int) == filters@);
                            lemma_chain_decomp(bytes@, s, k as int);
                            assert(record_at(bytes@, pos as int, s[k as int]));
                        }
                    }
                }
                return None;
            },
            Some((f, p2)) => {
                proof {
                    let ki = k as int;
                    assert(bytes@.subrange(pos as int, p2 as int) == enc_filter(f));
                    lemma_subrange_concat(bytes@, 0, pos as int, p2 as int);
                    vstd::seq_lib::lemma_concat_associative(
                        le_bytes(count as int),
                        enc_filters(filters@),
                        enc_filter(f),
                    );
                    lemma_enc_filters_snoc(filters@, f);
                    assert(bytes@.subrange(0, p2 as int) == le_bytes(count as int) + enc_filters(
                        filters@.push(f),
                    ));
                    assert forall|s: Seq<Filter>|
                        bytes@ == enc_chain(s) && s.len() <= u32::MAX implies s.len() == count
                        && s.take(ki + 1) == filters@.push(f) by {
                        assert(s.len() == count && s.take(ki) == filters@);
                        lemma_chain_decomp(bytes@, s, ki);
                        assert(record_at(bytes@, pos as int, s[ki]));
                        assert(f == s[ki]);
                        assert(s.take(ki + 1) =~= s.take(ki).push(s[ki]));
                    }
                }
                filters.push(f);
                pos = p2;
            },
        }
        k = k + 1;
    }
    if pos < n {
        proof {
            assert forall|s: Seq<Filter>| !(bytes@ == enc_chain(s) && s.len() <= u32::MAX) by {
                if bytes@ == enc_chain(s) && s.len() <= u32::MAX {
                    assert(s.take(k as int) =~= s);
                    assert(bytes@.subrange(0, pos as int) == bytes@.subrange(0, n as int));
                    assert(bytes@.subrange(0, n as int) =~= bytes@);
                    assert(bytes@.subrange(0, pos as int).len() == pos);
                }
            }
        }
        return None;
    }
    proof {
        assert(bytes@.subrange(0, n as int) =~= bytes@);
        assert(bytes@ == le_bytes(count as int) + enc_filters(filters@));
        assert(bytes@ == enc_chain(filters@));
        assert forall|s: Seq<Filter>|
            bytes@ == enc_chain(s) && s.len() <= u32::MAX implies s == filters@ by {
            assert(s.take(k as int) =~= s);
        }
    }
    Some(FilterChain { filters })
}

} // verus!
