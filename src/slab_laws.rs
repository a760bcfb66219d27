//! Geometry of the slab test: a box inside another is entered no earlier.
use vstd::prelude::*;
use crate::ray_queries::{
    accepted, box_entry, cand, crossing, in_slab, lemma_box_entry, lemma_le_trans, origin_inside,
    ratio_le,
};

verus! {

/// Entry crossing of the slab `[lo, hi]` along an axis that moves (`d != 0`).
pub open spec fn slab_entry(o: int, d: int, lo: int, hi: int) -> (int, int) {
    if d > 0 {
        crossing(o, d, lo)
    } else {
        crossing(o, d, hi)
    }
}

/// The ray at `t` lies in the closed slab `[lo, hi]` along a moving axis.
pub open spec fn at_in_slab(o: int, d: int, lo: int, hi: int, t: (int, int)) -> bool {
    lo * t.1 <= o * t.1 + t.0 * d <= hi * t.1
}

proof fn lemma_entry_before(o: int, d: int, lo: int, hi: int, t: (int, int))
    requires
        d != 0,
        t.1 > 0,
        at_in_slab(o, d, lo, hi, t),
    ensures
        ratio_le(slab_entry(o, d, lo, hi), t),
        slab_entry(o, d, lo, hi).1 > 0,
{
    if d > 0 {
        assert((lo - o) * t.1 <= t.0 * d) by (nonlinear_arith)
            requires
                lo * t.1 <= o * t.1 + t.0 * d,
        ;
    } else {
        assert((o - hi) * t.1 <= t.0 * (-d)) by (nonlinear_arith)
            requires
                o * t.1 + t.0 * d <= hi * t.1,
        ;
    }
}

/// Between the entry crossing and a later parameter inside the slab, the ray stays
/// inside the slab.
proof fn lemma_slab_convex(o: int, d: int, lo: int, hi: int, s: (int, int), t: (int, int))
    requires
        d != 0,
        s.1 > 0,
        t.1 > 0,
        at_in_slab(o, d, lo, hi, t),
        ratio_le(slab_entry(o, d, lo, hi), s),
        ratio_le(s, t),
    ensures
        at_in_slab(o, d, lo, hi, s),
{
    let (n, dd) = t;
    let (m, ee) = s;
    if d > 0 {
        assert(lo * ee <= o * ee + m * d) by (nonlinear_arith)
            requires
                (lo - o) * ee <= m * d,
        ;
        assert(m * dd * d <= n * ee * d) by (nonlinear_arith)
            requires
                m * dd <= n * ee,
                d > 0,
        ;
        assert((o * ee + m * d) * dd == o * dd * ee + m * dd * d) by (nonlinear_arith);
        assert(o * dd * ee + n * ee * d == (o * dd + n * d) * ee) by (nonlinear_arith);
        assert((o * dd + n * d) * ee <= hi * dd * ee) by (nonlinear_arith)
            requires
                o * dd + n * d <= hi * dd,
                ee > 0,
        ;
        assert(hi * dd * ee == hi * ee * dd) by (nonlinear_arith);
        assert(o * ee + m * d <= hi * ee) by (nonlinear_arith)
            requires
                (o * ee + m * d) * dd <= hi * ee * dd,
                dd > 0,
        ;
    } else {
        assert(o * ee + m * d <= hi * ee) by (nonlinear_arith)
            requires
                (o - hi) * ee <= m * (-d),
        ;
        assert(m * dd * d >= n * ee * d) by (nonlinear_arith)
            requires
                m * dd <= n * ee,
                d < 0,
        ;
        assert((o * ee + m * d) * dd == o * dd * ee + m * dd * d) by (nonlinear_arith);
        assert(o * dd * ee + n * ee * d == (o * dd + n * d) * ee) by (nonlinear_arith);
        assert((o * dd + n * d) * ee >= lo * dd * ee) by (nonlinear_arith)
            requires
                o * dd + n * d >= lo * dd,
                ee > 0,
        ;
        assert(lo * dd * ee == lo * ee * dd) by (nonlinear_arith);
        assert(o * ee + m * d >= lo * ee) by (nonlinear_arith)
            requires
                (o * ee + m * d) * dd >= lo * ee * dd,
                dd > 0,
        ;
    }
}

/// A slab that holds the ray at `t >= 0` but not its origin has a positive entry.
proof fn lemma_outside_entry(o: int, d: int, lo: int, hi: int, t: (int, int))
    requires
        d != 0,
        t.1 > 0,
        t.0 >= 0,
        at_in_slab(o, d, lo, hi, t),
        !(lo <= o <= hi),
    ensures
        slab_entry(o, d, lo, hi).0 > 0,
{
    if d > 0 {
        assert(t.0 * d >= 0) by (nonlinear_arith)
            requires
                t.0 >= 0,
                d > 0,
        ;
        assert(o * t.1 <= hi * t.1);
        assert(o <= hi) by (nonlinear_arith)
            requires
                o * t.1 <= hi * t.1,
                t.1 > 0,
        ;
    } else {
        assert(t.0 * d <= 0) by (nonlinear_arith)
            requires
                t.0 >= 0,
                d < 0,
        ;
        assert(o >= lo) by (nonlinear_arith)
            requires
                lo * t.1 <= o * t.1,
                t.1 > 0,
        ;
    }
}

proof fn lemma_slab_widen(o: int, d: int, lo: int, hi: int, lo2: int, hi2: int, t: (int, int))
    requires
        t.1 > 0,
        lo2 <= lo,
        hi <= hi2,
        in_slab(o, d, lo, hi, t),
    ensures
        in_slab(o, d, lo2, hi2, t),
{
    if d != 0 {
        assert(lo2 * t.1 <= lo * t.1 && hi * t.1 <= hi2 * t.1) by (nonlinear_arith)
            requires
                t.1 > 0,
                lo2 <= lo,
                hi <= hi2,
        ;
    }
}

/// Entry crossing of the box `[p0, p0 + size]` along axis `b`.
pub open spec fn axis_entry(o: Seq<i64>, d: Seq<i64>, p0: Seq<i64>, size: Seq<i64>, b: int) -> (int, int) {
    slab_entry(o[b] as int, d[b] as int, p0[b] as int, p0[b] + size[b])
}

/// The box `[q0, q0 + qs]` lies inside the box `[p0, p0 + size]`.
pub open spec fn box_within(q0: Seq<i64>, qs: Seq<i64>, p0: Seq<i64>, size: Seq<i64>) -> bool {
    forall|a: int|
        0 <= a < 3 ==> p0[a] <= #[trigger] q0[a] && 0 <= qs[a] && q0[a] + qs[a] <= p0[a] + size[a]
}

proof fn lemma_crossing_on_plane(o: int, d: int, p: int)
    requires
        d != 0,
    ensures
        o * crossing(o, d, p).1 + crossing(o, d, p).0 * d == p * crossing(o, d, p).1,
        crossing(o, d, p).1 > 0,
{
    if d > 0 {
        assert(o * d + (p - o) * d == p * d) by (nonlinear_arith);
    } else {
        assert(o * (-d) + (o - p) * d == p * (-d)) by (nonlinear_arith);
    }
}

/// A ray that enters a box enters every box around it, no later.
pub proof fn lemma_entry_monotone(
    o: Seq<i64>,
    d: Seq<i64>,
    p0: Seq<i64>,
    size: Seq<i64>,
    q0: Seq<i64>,
    qs: Seq<i64>,
)
    requires
        o.len() == 3,
        d.len() == 3,
        p0.len() == 3,
        size.len() == 3,
        q0.len() == 3,
        qs.len() == 3,
        box_within(q0, qs, p0, size),
        box_entry(o, d, q0, qs) is Some,
    ensures
        box_entry(o, d, p0, size) matches Some(t) && ratio_le(t, box_entry(o, d, q0, qs)->Some_0),
{
    lemma_box_entry(o, d, q0, qs);
    lemma_box_entry(o, d, p0, size);
    let t = box_entry(o, d, q0, qs)->Some_0;
    if origin_inside(o, p0, size) {
        if !origin_inside(o, q0, qs) {
            let c = choose|c: int| 0 <= c < 6 && #[trigger] accepted(o, d, q0, qs, c) && cand(o, d, q0, qs, c) == t;
            assert(accepted(o, d, q0, qs, c));
        }
        assert(t.0 >= 0);
        assert(0 * t.1 == 0) by (nonlinear_arith);
        assert(ratio_le((0int, 1int), t));
        return;
    }
    assert(!origin_inside(o, q0, qs));
    let c0 = choose|c: int| 0 <= c < 6 && #[trigger] accepted(o, d, q0, qs, c) && cand(o, d, q0, qs, c) == t;
    let a0 = c0 / 2;
    let pl = if c0 % 2 == 0 { q0[a0] as int } else { q0[a0] + qs[a0] };
    lemma_crossing_on_plane(o[a0] as int, d[a0] as int, pl);
    // the ray at `t` lies in every slab of the outer box
    assert forall|b: int| 0 <= b < 3 implies #[trigger] in_slab(o[b] as int, d[b] as int, p0[b] as int, p0[b] + size[b], t) by {
        if b == a0 {
            assert(p0[b] * t.1 <= pl * t.1 <= (p0[b] + size[b]) * t.1) by (nonlinear_arith)
                requires
                    p0[b] <= pl <= p0[b] + size[b],
                    t.1 > 0,
            ;
        } else {
            lemma_slab_widen(o[b] as int, d[b] as int, q0[b] as int, q0[b] + qs[b], p0[b] as int, p0[b] + size[b], t);
        }
    }
    // the axis whose entry crossing comes last
    let e = |b: int| axis_entry(o, d, p0, size, b);
    assert forall|b: int| 0 <= b < 3 && d[b] != 0 implies ratio_le(#[trigger] axis_entry(o, d, p0, size, b), t)
        && axis_entry(o, d, p0, size, b).1 > 0 by {
        assert(in_slab(o[b] as int, d[b] as int, p0[b] as int, p0[b] + size[b], t));
        lemma_entry_before(o[b] as int, d[b] as int, p0[b] as int, p0[b] + size[b], t);
    }
    let s0 = if d[0] != 0 && !ratio_le(e(0), e(a0)) { 0 } else { a0 };
    let s1 = if d[1] != 0 && !ratio_le(e(1), e(s0)) { 1 } else { s0 };
    let bs = if d[2] != 0 && !ratio_le(e(2), e(s1)) { 2 } else { s1 };
    assert forall|b: int| 0 <= b < 3 && d[b] != 0 implies ratio_le(#[trigger] axis_entry(o, d, p0, size, b), axis_entry(o, d, p0, size, bs)) by {
        if d[0] != 0 {
            assert(ratio_le(e(0), e(s0)));
        }
        assert(ratio_le(e(a0), e(s0)));
        if d[1] != 0 {
            assert(ratio_le(e(1), e(s1)));
        }
        assert(ratio_le(e(s0), e(s1)));
        assert(ratio_le(e(s1), e(bs)));
        if b == 0 || b == a0 {
            lemma_le_trans(e(b), e(s0), e(s1));
            lemma_le_trans(e(b), e(s1), e(bs));
        } else if b == 1 {
            lemma_le_trans(e(b), e(s1), e(bs));
        } else {
            assert(ratio_le(e(2), e(bs)));
        }
    }
    let cbs = if d[bs] > 0 { 2 * bs } else { 2 * bs + 1 };
    assert(cbs / 2 == bs && (cbs % 2 == 0 <==> d[bs] > 0));
    assert(cand(o, d, p0, size, cbs) == e(bs));
    // the outer box is entered from outside: some axis has a positive entry crossing
    let k = choose|k: int| 0 <= k < 3 && !(p0[k] <= #[trigger] o[k] <= p0[k] + size[k]);
    assert(in_slab(o[k] as int, d[k] as int, p0[k] as int, p0[k] + size[k], t));
    assert(d[k] != 0);
    lemma_outside_entry(o[k] as int, d[k] as int, p0[k] as int, p0[k] + size[k], t);
    assert(e(bs).0 > 0) by {
        let (x, y) = (e(k), e(bs));
        assert(ratio_le(x, y));
        assert(y.0 > 0) by (nonlinear_arith)
            requires
                x.0 * y.1 <= y.0 * x.1,
                x.0 > 0,
                x.1 > 0,
                y.1 > 0,
        ;
    }
    assert forall|b: int| 0 <= b < 3 && b != bs implies in_slab(o[b] as int, d[b] as int, p0[b] as int, p0[b] + size[b], #[trigger] cand(o, d, p0, size, cbs)) by {
        assert(in_slab(o[b] as int, d[b] as int, p0[b] as int, p0[b] + size[b], t));
        if d[b] != 0 {
            lemma_slab_convex(o[b] as int, d[b] as int, p0[b] as int, p0[b] + size[b], e(bs), t);
        }
    }
    assert(accepted(o, d, p0, size, cbs));
    let r = box_entry(o, d, p0, size)->Some_0;
    assert(ratio_le(r, e(bs)));
    lemma_le_trans(r, e(bs), t);
}

} // verus!
