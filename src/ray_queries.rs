use vstd::prelude::*;
use crate::voxel_model::{box_ok, traverse_spec, zero3, VoxelData, VoxelDataVisitor, VoxelModel};

verus! {

/// Bound on the magnitude of every coordinate handed to the slab test.
pub const COORD_LIMIT: i64 = 1125899906842624;

/// A non-negative rational ray parameter `num / den`, `den > 0`.
pub struct Ratio {
    pub num: i128,
    pub den: i128,
}

impl View for Ratio {
    type V = (int, int);

    open spec fn view(&self) -> (int, int) {
        (self.num as int, self.den as int)
    }
}

/// The rational `a` is at most `b` (denominators positive).
pub open spec fn ratio_le(a: (int, int), b: (int, int)) -> bool {
    a.0 * b.1 <= b.0 * a.1
}

/// The rational `a` is below `b` (denominators positive).
pub open spec fn ratio_lt(a: (int, int), b: (int, int)) -> bool {
    a.0 * b.1 < b.0 * a.1
}

pub open spec fn opt_view(r: Option<Ratio>) -> Option<(int, int)> {
    match r {
        Some(t) => Some(t@),
        None => None,
    }
}

pub open spec fn in_limit(v: Seq<i64>) -> bool {
    &&& v.len() == 3
    &&& forall|a: int| 0 <= a < 3 ==> -COORD_LIMIT <= #[trigger] v[a] <= COORD_LIMIT
}

pub open spec fn sizes_ok(v: Seq<i64>) -> bool {
    &&& v.len() == 3
    &&& forall|a: int| 0 <= a < 3 ==> 0 <= #[trigger] v[a] <= COORD_LIMIT
}

/// The origin lies in the closed box `[p0, p0 + size]`.
pub open spec fn origin_inside(o: Seq<i64>, p0: Seq<i64>, size: Seq<i64>) -> bool {
    forall|a: int| 0 <= a < 3 ==> p0[a] <= #[trigger] o[a] <= p0[a] + size[a]
}

/// Along axis `b`, the ray at parameter `t` lies in the slab `[lo, hi]`. With no motion
/// along the axis this holds for every `t` exactly when the origin is strictly
/// between the two planes.
pub open spec fn in_slab(o: int, d: int, lo: int, hi: int, t: (int, int)) -> bool {
    if d != 0 {
        lo * t.1 <= o * t.1 + t.0 * d <= hi * t.1
    } else {
        lo < o < hi
    }
}

/// The parameter at which the ray crosses the plane `x = p` along an axis with
/// origin `o` and direction `d != 0`, with a positive denominator.
pub open spec fn crossing(o: int, d: int, p: int) -> (int, int) {
    if d > 0 {
        (p - o, d)
    } else {
        (o - p, -d)
    }
}

/// Candidate `c` (`0 <= c < 6`): axis `c / 2`, the near plane of the box when `c`
/// is even, the far plane when odd.
pub open spec fn cand(o: Seq<i64>, d: Seq<i64>, p0: Seq<i64>, size: Seq<i64>, c: int) -> (
    int,
    int,
) {
    let a = c / 2;
    let p = if c % 2 == 0 {
        p0[a] as int
    } else {
        p0[a] + size[a]
    };
    crossing(o[a] as int, d[a] as int, p)
}

/// Candidate `c` is a valid entry point: its axis moves, it is not behind the
/// origin, and it lies within the slabs of the two other axes.
pub open spec fn accepted(o: Seq<i64>, d: Seq<i64>, p0: Seq<i64>, size: Seq<i64>, c: int) -> bool {
    let a = c / 2;
    let t = cand(o, d, p0, size, c);
    &&& d[a] != 0
    &&& t.0 >= 0
    &&& forall|b: int|
        0 <= b < 3 && b != a ==> in_slab(
            o[b] as int,
            d[b] as int,
            p0[b] as int,
            p0[b] + size[b],
            t,
        )
}

/// The smallest accepted candidate among the first `k`, the earliest on ties.
pub open spec fn entry_upto(o: Seq<i64>, d: Seq<i64>, p0: Seq<i64>, size: Seq<i64>, k: int) -> Option<
    (int, int),
>
    decreases k,
{
    if k <= 0 {
        None
    } else {
        let best = entry_upto(o, d, p0, size, k - 1);
        let t = cand(o, d, p0, size, k - 1);
        if accepted(o, d, p0, size, k - 1) {
            match best {
                None => Some(t),
                Some(b) => if ratio_lt(t, b) {
                    Some(t)
                } else {
                    best
                },
            }
        } else {
            best
        }
    }
}

/// Where the ray enters the box `[p0, p0 + size]`: 0 when the origin is inside,
/// else the smallest accepted candidate.
pub open spec fn box_entry(o: Seq<i64>, d: Seq<i64>, p0: Seq<i64>, size: Seq<i64>) -> Option<
    (int, int),
> {
    if origin_inside(o, p0, size) {
        Some((0, 1))
    } else {
        entry_upto(o, d, p0, size, 6)
    }
}

pub(crate) proof fn lemma_le_trans(a: (int, int), b: (int, int), c: (int, int))
    requires
        a.1 > 0,
        b.1 > 0,
        c.1 > 0,
        ratio_le(a, b),
        ratio_le(b, c),
    ensures
        ratio_le(a, c),
{
    assert(a.0 * b.1 * c.1 <= b.0 * a.1 * c.1) by (nonlinear_arith)
        requires
            a.0 * b.1 <= b.0 * a.1,
            c.1 > 0,
    ;
    assert(b.0 * c.1 * a.1 <= c.0 * b.1 * a.1) by (nonlinear_arith)
        requires
            b.0 * c.1 <= c.0 * b.1,
            a.1 > 0,
    ;
    assert(a.0 * c.1 * b.1 <= c.0 * a.1 * b.1) by (nonlinear_arith)
        requires
            a.0 * b.1 * c.1 <= b.0 * a.1 * c.1,
            b.0 * c.1 * a.1 <= c.0 * b.1 * a.1,
    ;
    assert(a.0 * c.1 <= c.0 * a.1) by (nonlinear_arith)
        requires
            a.0 * c.1 * b.1 <= c.0 * a.1 * b.1,
            b.1 > 0,
    ;
}

/// `entry_upto(k)` is the least accepted candidate among the first `k`.
proof fn lemma_entry_upto(o: Seq<i64>, d: Seq<i64>, p0: Seq<i64>, size: Seq<i64>, k: int)
    requires
        0 <= k <= 6,
        d.len() == 3,
        o.len() == 3,
        p0.len() == 3,
        size.len() == 3,
    ensures
        entry_upto(o, d, p0, size, k) is None <==> forall|c: int|
            0 <= c < k ==> !#[trigger] accepted(o, d, p0, size, c),
        entry_upto(o, d, p0, size, k) matches Some(t) ==> {
            &&& t.1 > 0
            &&& exists|c: int|
                0 <= c < k && #[trigger] accepted(o, d, p0, size, c) && cand(o, d, p0, size, c)
                    == t
            &&& forall|c: int|
                0 <= c < k && #[trigger] accepted(o, d, p0, size, c) ==> ratio_le(
                    t,
                    cand(o, d, p0, size, c),
                )
        },
    decreases k,
{
    if k > 0 {
        lemma_entry_upto(o, d, p0, size, k - 1);
        let t = cand(o, d, p0, size, k - 1);
        let best = entry_upto(o, d, p0, size, k - 1);
        if accepted(o, d, p0, size, k - 1) {
            assert(t.1 > 0);
            match best {
                None => {},
                Some(b) => {
                    if ratio_lt(t, b) {
                        assert forall|c: int|
                            0 <= c < k && #[trigger] accepted(o, d, p0, size, c) implies ratio_le(
                            t,
                            cand(o, d, p0, size, c),
                        ) by {
                            if c < k - 1 {
                                let tc = cand(o, d, p0, size, c);
                                assert(tc.1 > 0);
                                lemma_le_trans(t, b, tc);
                            }
                        }
                    } else {
                        assert(ratio_le(b, t));
                    }
                },
            }
        }
    }
}

/// The entry point is the least valid candidate, 0 from inside, and none exactly
/// when no candidate is valid.
pub proof fn lemma_box_entry(o: Seq<i64>, d: Seq<i64>, p0: Seq<i64>, size: Seq<i64>)
    requires
        d.len() == 3,
        o.len() == 3,
        p0.len() == 3,
        size.len() == 3,
    ensures
        origin_inside(o, p0, size) ==> box_entry(o, d, p0, size) == Some((0int, 1int)),
        !origin_inside(o, p0, size) ==> {
            &&& box_entry(o, d, p0, size) is None <==> forall|c: int|
                0 <= c < 6 ==> !#[trigger] accepted(o, d, p0, size, c)
            &&& box_entry(o, d, p0, size) matches Some(t) ==> {
                &&& exists|c: int|
                    0 <= c < 6 && #[trigger] accepted(o, d, p0, size, c) && cand(
                        o,
                        d,
                        p0,
                        size,
                        c,
                    ) == t
                &&& forall|c: int|
                    0 <= c < 6 && #[trigger] accepted(o, d, p0, size, c) ==> ratio_le(
                        t,
                        cand(o, d, p0, size, c),
                    )
            }
        },
{
    lemma_entry_upto(o, d, p0, size, 6);
}


pub(crate) proof fn lemma_mul_bound(x: int, y: int, bx: int, by: int)
    requires
        -bx <= x <= bx,
        0 <= y <= by,
    ensures
        -(bx * by) <= x * y <= bx * by,
{
    assert(-(bx * by) <= x * y <= bx * by) by (nonlinear_arith)
        requires
            -bx <= x <= bx,
            0 <= y <= by,
    ;
}

/// Exec form of `in_slab` for a candidate `num / den`.
fn slab_contains(o: i64, d: i64, lo: i64, hi: i64, num: i128, den: i128) -> (r: bool)
    requires
        -COORD_LIMIT <= o <= COORD_LIMIT,
        -COORD_LIMIT <= d <= COORD_LIMIT,
        -COORD_LIMIT <= lo <= COORD_LIMIT,
        -2 * COORD_LIMIT <= hi <= 2 * COORD_LIMIT,
        -4 * COORD_LIMIT <= num <= 4 * COORD_LIMIT,
        0 < den <= COORD_LIMIT,
    ensures
        r == in_slab(o as int, d as int, lo as int, hi as int, (num as int, den as int)),
{
    if d != 0 {
        proof {
            lemma_mul_bound(o as int, den as int, COORD_LIMIT as int, COORD_LIMIT as int);
            lemma_mul_bound(d as int, 4 * COORD_LIMIT as int, COORD_LIMIT as int, 4 * COORD_LIMIT as int);
            lemma_mul_bound(num as int, if d >= 0 { d as int } else { -d as int }, 4 * COORD_LIMIT as int, COORD_LIMIT as int);
            assert(num * d == -(num * (-d))) by (nonlinear_arith);
            lemma_mul_bound(lo as int, den as int, COORD_LIMIT as int, COORD_LIMIT as int);
            lemma_mul_bound(hi as int, den as int, 2 * COORD_LIMIT as int, COORD_LIMIT as int);
        }
        let x: i128 = (o as i128) * den + num * (d as i128);
        (lo as i128) * den <= x && x <= (hi as i128) * den
    } else {
        lo < o && o < hi
    }
}

/// Where the ray `ray_origin + t * ray_dir` enters the box with minimum corner `p0`
/// and extent `size`, or `None` when it misses.
pub fn cast_ray_to_box(ray_origin: [i64; 3], ray_dir: [i64; 3], p0: [i64; 3], size: [i64; 3]) -> (r:
    Option<Ratio>)
    requires
        in_limit(ray_origin@),
        in_limit(ray_dir@),
        in_limit(p0@),
        sizes_ok(size@),
    ensures
        opt_view(r) == box_entry(ray_origin@, ray_dir@, p0@, size@),
        r matches Some(t) ==> 0 <= t.num <= 4 * COORD_LIMIT && 0 < t.den <= COORD_LIMIT,
        origin_inside(ray_origin@, p0@, size@) ==> (r matches Some(t) && t.num == 0),
        forall|b: int|
            0 <= b < 3 && ray_dir[b] == 0 && (ray_origin[b] < p0[b] || ray_origin[b] > p0[b]
                + size[b]) ==> r is None,
{
    let mut p1: [i64; 3] = p0;
    p1[0] = p0[0] + size[0];
    p1[1] = p0[1] + size[1];
    p1[2] = p0[2] + size[2];
    assert(forall|a: int| 0 <= a < 3 ==> #[trigger] p1[a] == p0[a] + size[a]);
    if p0[0] <= ray_origin[0] && ray_origin[0] <= p1[0] && p0[1] <= ray_origin[1] && ray_origin[1]
        <= p1[1] && p0[2] <= ray_origin[2] && ray_origin[2] <= p1[2] {
        return Some(Ratio { num: 0, den: 1 });
    }
    let ghost (o, d, q, sz) = (ray_origin@, ray_dir@, p0@, size@);
    let mut best: Option<Ratio> = None;
    let mut c: usize = 0;
    while c < 6
        invariant
            0 <= c <= 6,
            o == ray_origin@,
            d == ray_dir@,
            q == p0@,
            sz == size@,
            in_limit(o),
            in_limit(d),
            in_limit(q),
            sizes_ok(sz),
            forall|a: int| 0 <= a < 3 ==> #[trigger] p1[a] == p0[a] + size[a],
            opt_view(best) == entry_upto(o, d, q, sz, c as int),
            best matches Some(t) ==> 0 <= t.num <= 4 * COORD_LIMIT && 0 < t.den <= COORD_LIMIT,
        decreases 6 - c,
    {
        let a: usize = c / 2;
        let p: i64 = if c % 2 == 0 { p0[a] } else { p1[a] };
        let da: i64 = ray_dir[a];
        let oa: i64 = ray_origin[a];
        if da != 0 {
            let (num, den): (i128, i128) = if da > 0 {
                ((p as i128) - (oa as i128), da as i128)
            } else {
                ((oa as i128) - (p as i128), -(da as i128))
            };
            assert((num as int, den as int) == cand(o, d, q, sz, c as int));
            let b1: usize = if a == 0 { 1 } else { 0 };
            let b2: usize = if a == 2 { 1 } else { 2 };
            if num >= 0 && slab_contains(ray_origin[b1], ray_dir[b1], p0[b1], p1[b1], num, den)
                && slab_contains(ray_origin[b2], ray_dir[b2], p0[b2], p1[b2], num, den) {
                assert(accepted(o, d, q, sz, c as int));
                let take = match &best {
                    None => true,
                    Some(t) => {
                        proof {
                            lemma_mul_bound(num as int, t.den as int, 4 * COORD_LIMIT as int, COORD_LIMIT as int);
                            lemma_mul_bound(t.num as int, den as int, 4 * COORD_LIMIT as int, COORD_LIMIT as int);
                        }
                        num * t.den < t.num * den
                    },
                };
                if take {
                    best = Some(Ratio { num, den });
                }
            } else {
                assert(!accepted(o, d, q, sz, c as int));
            }
        } else {
            assert(!accepted(o, d, q, sz, c as int));
        }
        c = c + 1;
    }
    proof {
        lemma_entry_upto(o, d, q, sz, 6);
        assert forall|b: int|
            0 <= b < 3 && ray_dir[b] == 0 && (ray_origin[b] < p0[b] || ray_origin[b] > p0[b]
                + size[b]) implies best is None by {
            assert forall|cc: int| 0 <= cc < 6 implies !#[trigger] accepted(o, d, q, sz, cc) by {
                if cc / 2 != b {
                    assert(!in_slab(o[b] as int, d[b] as int, q[b] as int, q[b] + sz[b], cand(o, d, q, sz, cc)));
                }
            }
        }
    }
    best
}

/// Bound on the magnitude of an instance anchor.
pub const POS_LIMIT: i64 = 562949953421312;

/// Largest number of ray units per voxel.
pub const MAX_SCALE: i64 = 16777216;

/// World-space lower corner of the voxel box `[min_p, ...]` of an instance anchored at
/// `pos`, with `scale` ray units per voxel.
pub open spec fn cell_min(pos: Seq<i64>, scale: i64, min_p: Seq<usize>) -> Seq<i64> {
    seq![
        (pos[0] + min_p[0] * scale) as i64,
        (pos[1] + min_p[1] * scale) as i64,
        (pos[2] + min_p[2] * scale) as i64,
    ]
}

/// World-space extent of the voxel box `[min_p, max_p]`.
pub open spec fn cell_size(scale: i64, min_p: Seq<usize>, max_p: Seq<usize>) -> Seq<i64> {
    seq![
        ((max_p[0] - min_p[0]) * scale) as i64,
        ((max_p[1] - min_p[1]) * scale) as i64,
        ((max_p[2] - min_p[2]) * scale) as i64,
    ]
}

/// Turns a spec entry parameter back into a `Ratio`.
pub open spec fn to_ratio(t: (int, int)) -> Ratio {
    Ratio { num: t.0 as i128, den: t.1 as i128 }
}

/// A hit at `t` beats the best one so far.
pub open spec fn improves(best: Option<(Ratio, u8)>, t: (int, int)) -> bool {
    match best {
        None => true,
        Some((old_t, _)) => ratio_lt(t, old_t@),
    }
}

/// Nearest-hit policy for one ray against one instance: remembers the closest opaque
/// leaf seen, and only descends into branches whose box could still beat it.
pub struct VoxelIntersector {
    pub ray_origin: [i64; 3],
    pub ray_dir: [i64; 3],
    pub pos: [i64; 3],
    pub scale: i64,
    pub min: Option<(Ratio, u8)>,
}

impl VoxelIntersector {
    /// A fresh intersector, with no hit yet.
    pub fn new(ray_origin: [i64; 3], ray_dir: [i64; 3], pos: [i64; 3], scale: i64) -> (r: Self)
        requires
            in_limit(ray_origin@),
            in_limit(ray_dir@),
            pos_ok(pos@),
            1 <= scale <= MAX_SCALE,
        ensures
            r == (VoxelIntersector { ray_origin, ray_dir, pos, scale, min: None }),
            r.inv(),
    {
        VoxelIntersector { ray_origin, ray_dir, pos, scale, min: None }
    }

    /// Where the ray enters the voxel box `[min_p, max_p]` of this instance.
    pub open spec fn hit_of(&self, min_p: Seq<usize>, max_p: Seq<usize>) -> Option<(int, int)> {
        box_entry(
            self.ray_origin@,
            self.ray_dir@,
            cell_min(self.pos@, self.scale, min_p),
            cell_size(self.scale, min_p, max_p),
        )
    }
}

pub open spec fn pos_ok(v: Seq<i64>) -> bool {
    &&& v.len() == 3
    &&& forall|a: int| 0 <= a < 3 ==> -POS_LIMIT <= #[trigger] v[a] <= POS_LIMIT
}

pub open spec fn hit_ok(h: Option<(Ratio, u8)>) -> bool {
    h matches Some((t, _)) ==> 0 <= t.num <= 4 * COORD_LIMIT && 0 < t.den <= COORD_LIMIT
}

impl VoxelDataVisitor for VoxelIntersector {
    open spec fn inv(&self) -> bool {
        &&& in_limit(self.ray_origin@)
        &&& in_limit(self.ray_dir@)
        &&& pos_ok(self.pos@)
        &&& 1 <= self.scale <= MAX_SCALE
        &&& hit_ok(self.min)
    }

    open spec fn visit_spec(&self, min_p: Seq<usize>, max_p: Seq<usize>, data: VoxelData) -> (
        Self,
        bool,
    ) {
        let hit = self.hit_of(min_p, max_p);
        match data {
            VoxelData::Node2x2x2 { .. } => (
                *self,
                match hit {
                    Some(t) => improves(self.min, t),
                    None => false,
                },
            ),
            VoxelData::Leaf { color_id } => {
                if color_id != 0 && hit is Some && improves(self.min, hit->Some_0) {
                    (
                        VoxelIntersector {
                            min: Some((to_ratio(hit->Some_0), color_id)),
                            ..*self
                        },
                        false,
                    )
                } else {
                    (*self, false)
                }
            },
        }
    }

    fn visit(&mut self, min_p: &[usize; 3], max_p: &[usize; 3], data: &VoxelData) -> (r: bool) {
        let mut p0: [i64; 3] = [0, 0, 0];
        let mut size: [i64; 3] = [0, 0, 0];
        let mut a: usize = 0;
        while a < 3
            invariant
                0 <= a <= 3,
                self.inv(),
                box_ok(min_p@, max_p@),
                forall|b: int| 0 <= b < a ==> #[trigger] p0[b] == self.pos[b] + min_p[b] * self.scale,
                forall|b: int|
                    0 <= b < a ==> #[trigger] size[b] == (max_p[b] - min_p[b]) * self.scale,
                forall|b: int| 0 <= b < a ==> -COORD_LIMIT <= #[trigger] p0[b] <= COORD_LIMIT,
                forall|b: int| 0 <= b < a ==> 0 <= #[trigger] size[b] <= COORD_LIMIT,
            decreases 3 - a,
        {
            let lo = min_p[a] as i64;
            let ext = (max_p[a] - min_p[a]) as i64;
            proof {
                assert(0 <= lo * self.scale <= 16777216 * 16777216) by (nonlinear_arith)
                    requires
                        0 <= lo <= 16777216,
                        1 <= self.scale <= 16777216,
                ;
                assert(0 <= ext * self.scale <= 16777216 * 16777216) by (nonlinear_arith)
                    requires
                        0 <= ext <= 16777216,
                        1 <= self.scale <= 16777216,
                ;
            }
            p0[a] = self.pos[a] + lo * self.scale;
            size[a] = ext * self.scale;
            a = a + 1;
        }
        assert(p0@ =~= cell_min(self.pos@, self.scale, min_p@));
        assert(size@ =~= cell_size(self.scale, min_p@, max_p@));
        let hit = cast_ray_to_box(self.ray_origin, self.ray_dir, p0, size);
        let beats = match (&hit, &self.min) {
            (Some(t), Some((old_t, _))) => {
                proof {
                    lemma_mul_bound(t.num as int, old_t.den as int, 4 * COORD_LIMIT as int, COORD_LIMIT as int);
                    lemma_mul_bound(old_t.num as int, t.den as int, 4 * COORD_LIMIT as int, COORD_LIMIT as int);
                }
                t.num * old_t.den < old_t.num * t.den
            },
            (Some(_), None) => true,
            (None, _) => false,
        };
        match data {
            VoxelData::Node2x2x2 { .. } => beats,
            VoxelData::Leaf { color_id } => {
                if *color_id != 0 && beats {
                    match hit {
                        Some(t) => {
                            self.min = Some((t, *color_id));
                        },
                        None => {},
                    }
                }
                false
            },
        }
    }
}

/// The nearest opaque hit of the ray in the volume `model` anchored at `pos`.
pub fn cast_ray_to_model(
    model: &VoxelModel,
    pos: [i64; 3],
    scale: i64,
    ray_origin: [i64; 3],
    ray_dir: [i64; 3],
) -> (r: Option<(Ratio, u8)>)
    requires
        model.wf(),
        in_limit(ray_origin@),
        in_limit(ray_dir@),
        pos_ok(pos@),
        1 <= scale <= MAX_SCALE,
    ensures
        r == model_hit(model, pos, scale, ray_origin, ray_dir),
        hit_ok(r),
{
    let mut intersector = VoxelIntersector::new(ray_origin, ray_dir, pos, scale);
    model.traverse(&mut intersector);
    intersector.min
}

/// The nearest hit that a fresh intersector records walking `model`.
pub open spec fn model_hit(
    model: &VoxelModel,
    pos: [i64; 3],
    scale: i64,
    ray_origin: [i64; 3],
    ray_dir: [i64; 3],
) -> Option<(Ratio, u8)> {
    traverse_spec(
        model.data,
        zero3(),
        model.size@,
        VoxelIntersector { ray_origin, ray_dir, pos, scale, min: None },
    ).min
}

/// A voxel volume as placed in the world.
pub struct Voxel {
    pub data: VoxelModel,
}

/// A placed instance: the world anchor of its minimum corner, and its volume.
pub struct VoxelInstance {
    pub pos: [i64; 3],
    pub voxel: Voxel,
}

impl VoxelInstance {
    pub open spec fn wf(&self) -> bool {
        self.voxel.data.wf() && pos_ok(self.pos@)
    }

    /// This instance's own nearest hit of the ray.
    pub open spec fn hit(&self, scale: i64, ray_origin: [i64; 3], ray_dir: [i64; 3]) -> Option<
        (Ratio, u8),
    > {
        model_hit(&self.voxel.data, self.pos, scale, ray_origin, ray_dir)
    }
}

/// The nearest hit over the first `k` instances, the earliest on ties.
pub open spec fn nearest_upto(
    instances: Seq<VoxelInstance>,
    k: int,
    scale: i64,
    ray_origin: [i64; 3],
    ray_dir: [i64; 3],
) -> Option<(Ratio, u8)>
    decreases k,
{
    if k <= 0 {
        None
    } else {
        let best = nearest_upto(instances, k - 1, scale, ray_origin, ray_dir);
        let h = instances[k - 1].hit(scale, ray_origin, ray_dir);
        match (h, best) {
            (Some((t, _)), Some((b, _))) => if ratio_lt(t@, b@) {
                h
            } else {
                best
            },
            (Some(_), None) => h,
            (None, _) => best,
        }
    }
}

/// The nearest hit of the ray over all instances: the hit of the instance whose own
/// hit is nearest, the first such instance on ties; `None` when no instance is hit.
pub fn cast_ray_to_instances(
    instances: &Vec<VoxelInstance>,
    scale: i64,
    ray_origin: [i64; 3],
    ray_dir: [i64; 3],
) -> (r: Option<(Ratio, u8)>)
    requires
        forall|i: int| 0 <= i < instances.len() ==> (#[trigger] instances[i]).wf(),
        in_limit(ray_origin@),
        in_limit(ray_dir@),
        1 <= scale <= MAX_SCALE,
    ensures
        r == nearest_upto(instances@, instances.len() as int, scale, ray_origin, ray_dir),
        hit_ok(r),
        r is None <==> forall|i: int|
            0 <= i < instances.len() ==> (#[trigger] instances[i].hit(scale, ray_origin, ray_dir))
                is None,
        r is Some ==> exists|i: int|
            0 <= i < instances.len() && r == #[trigger] instances[i].hit(
                scale,
                ray_origin,
                ray_dir,
            ) && (forall|j: int|
                0 <= j < i ==> !(#[trigger] instances[j].hit(scale, ray_origin, ray_dir) matches Some(
                    (t, _),
                ) && ratio_le(t@, r->Some_0.0@))),
        r matches Some((t, _)) ==> forall|j: int|
            0 <= j < instances.len() ==> (#[trigger] instances[j].hit(
                scale,
                ray_origin,
                ray_dir,
            ) matches Some((u, _)) ==> ratio_le(t@, u@)),
{
    let mut best: Option<(Ratio, u8)> = None;
    let ghost mut at: int = 0;
    let mut i: usize = 0;
    while i < instances.len()
        invariant
            0 <= i <= instances.len(),
            forall|k: int| 0 <= k < instances.len() ==> (#[trigger] instances[k]).wf(),
            in_limit(ray_origin@),
            in_limit(ray_dir@),
            1 <= scale <= MAX_SCALE,
            hit_ok(best),
            best == nearest_upto(instances@, i as int, scale, ray_origin, ray_dir),
            forall|k: int| 0 <= k < i ==> hit_ok(#[trigger] instances[k].hit(scale, ray_origin, ray_dir)),
            best is None <==> forall|k: int|
                0 <= k < i ==> (#[trigger] instances[k].hit(scale, ray_origin, ray_dir)) is None,
            best is Some ==> 0 <= at < i && best == instances[at].hit(scale, ray_origin, ray_dir)
                && (forall|j: int|
                0 <= j < at ==> !(#[trigger] instances[j].hit(scale, ray_origin, ray_dir) matches Some(
                    (t, _),
                ) && ratio_le(t@, best->Some_0.0@))),
            best matches Some((t, _)) ==> forall|j: int|
                0 <= j < i ==> (#[trigger] instances[j].hit(scale, ray_origin, ray_dir) matches Some(
                    (u, _),
                ) ==> ratio_le(t@, u@)),
        decreases instances.len() - i,
    {
        let inst = &instances[i];
        let h = cast_ray_to_model(&inst.voxel.data, inst.pos, scale, ray_origin, ray_dir);
        match (&h, &best) {
            (Some((t, _)), Some((b, _))) => {
                proof {
                    lemma_mul_bound(t.num as int, b.den as int, 4 * COORD_LIMIT as int, COORD_LIMIT as int);
                    lemma_mul_bound(b.num as int, t.den as int, 4 * COORD_LIMIT as int, COORD_LIMIT as int);
                }
                if t.num * b.den < b.num * t.den {
                    proof {
                        let tv = t@;
                        assert forall|j: int| 0 <= j <= i implies (#[trigger] instances[j].hit(scale, ray_origin, ray_dir) matches Some(
                            (u, _),
                        ) ==> ratio_le(tv, u@)) by {
                            if j < i {
                                if let Some((u, _)) = instances[j].hit(scale, ray_origin, ray_dir) {
                                    lemma_le_trans(tv, b@, u@);
                                }
                            }
                        }
                        assert forall|j: int| 0 <= j < i implies !(#[trigger] instances[j].hit(scale, ray_origin, ray_dir) matches Some(
                            (u, _),
                        ) && ratio_le(u@, tv)) by {
                            if let Some((u, _)) = instances[j].hit(scale, ray_origin, ray_dir) {
                                if ratio_le(u@, tv) {
                                    lemma_le_trans(b@, u@, tv);
                                }
                            }
                        }
                        at = i as int;
                    }
                    best = h;
                }
            },
            (Some(_), None) => {
                proof {
                    at = i as int;
                }
                best = h;
            },
            (None, _) => {},
        }
        i = i + 1;
    }
    best
}

} // verus!
