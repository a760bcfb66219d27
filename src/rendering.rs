use vstd::prelude::*;
use crate::ray_queries::{
    cast_ray_to_instances, in_limit, lemma_mul_bound, nearest_upto, Ratio, VoxelInstance, COORD_LIMIT,
    MAX_SCALE,
};

verus! {

/// Bound on the magnitude of a frustum corner coordinate.
pub const CORNER_LIMIT: i64 = 8388608;

/// Largest screen width or height.
pub const MAX_SCREEN: usize = 4096;

/// One plane of the view frustum, by its four corners in world space.
pub struct FrustumPlane {
    pub top_left: [i64; 3],
    pub top_right: [i64; 3],
    pub bottom_left: [i64; 3],
    pub bottom_right: [i64; 3],
}

/// A ray in units of `1 / units` world units: it starts at `origin / units` and moves
/// by `dir / units` per unit of its parameter.
pub struct PixelRay {
    pub origin: [i64; 3],
    pub dir: [i64; 3],
    pub units: i64,
}

impl FrustumPlane {
    pub open spec fn wf(&self) -> bool {
        &&& corner_ok(self.top_left@)
        &&& corner_ok(self.top_right@)
        &&& corner_ok(self.bottom_left@)
        &&& corner_ok(self.bottom_right@)
    }

    /// The point of the plane at column `i` of `w` and row `j` of `h`, scaled by
    /// `(w - 1) * (h - 1)`: each row interpolates top to bottom by `v = j / (h - 1)`,
    /// then left to right by `u = i / (w - 1)`.
    pub open spec fn bilerp(&self, i: int, j: int, w: int, h: int, a: int) -> int {
        let (iu, ju) = (w - 1 - i, h - 1 - j);
        iu * (ju * self.top_left[a] + j * self.bottom_left[a]) + i * (ju * self.top_right[a] + j
            * self.bottom_right[a])
    }
}

pub open spec fn corner_ok(v: Seq<i64>) -> bool {
    &&& v.len() == 3
    &&& forall|a: int| 0 <= a < 3 ==> -CORNER_LIMIT <= #[trigger] v[a] <= CORNER_LIMIT
}

proof fn lemma_bilerp_bound(p: &FrustumPlane, i: int, j: int, w: int, h: int, a: int)
    requires
        p.wf(),
        2 <= w <= MAX_SCREEN,
        2 <= h <= MAX_SCREEN,
        0 <= i < w,
        0 <= j < h,
        0 <= a < 3,
    ensures
        -(CORNER_LIMIT * MAX_SCREEN * MAX_SCREEN) <= p.bilerp(i, j, w, h, a) <= CORNER_LIMIT
            * MAX_SCREEN * MAX_SCREEN,
{
    let (iu, ju) = (w - 1 - i, h - 1 - j);
    let (tl, tr, bl, br) = (
        p.top_left[a] as int,
        p.top_right[a] as int,
        p.bottom_left[a] as int,
        p.bottom_right[a] as int,
    );
    let l = CORNER_LIMIT as int;
    assert(-(l * (h - 1)) <= ju * tl + j * bl <= l * (h - 1)) by (nonlinear_arith)
        requires
            -l <= tl <= l,
            -l <= bl <= l,
            0 <= ju,
            0 <= j,
            ju + j == h - 1,
    ;
    assert(-(l * (h - 1)) <= ju * tr + j * br <= l * (h - 1)) by (nonlinear_arith)
        requires
            -l <= tr <= l,
            -l <= br <= l,
            0 <= ju,
            0 <= j,
            ju + j == h - 1,
    ;
    let (x, y) = (ju * tl + j * bl, ju * tr + j * br);
    assert(-(l * (h - 1) * (w - 1)) <= iu * x + i * y <= l * (h - 1) * (w - 1)) by (nonlinear_arith)
        requires
            -(l * (h - 1)) <= x <= l * (h - 1),
            -(l * (h - 1)) <= y <= l * (h - 1),
            0 <= iu,
            0 <= i,
            iu + i == w - 1,
    ;
    assert(l * (h - 1) * (w - 1) <= l * 4096 * 4096) by (nonlinear_arith)
        requires
            0 <= l,
            h - 1 <= 4096,
            w - 1 <= 4096,
            0 <= h - 1,
            0 <= w - 1,
    ;
}

fn bilerp_exec(p: &FrustumPlane, i: usize, j: usize, w: usize, h: usize, a: usize) -> (r: i64)
    requires
        p.wf(),
        2 <= w <= MAX_SCREEN,
        2 <= h <= MAX_SCREEN,
        i < w,
        j < h,
        a < 3,
    ensures
        r == p.bilerp(i as int, j as int, w as int, h as int, a as int),
{
    proof {
        lemma_bilerp_bound(p, i as int, j as int, w as int, h as int, a as int);
    }
    let iu = (w - 1 - i) as i64;
    let ju = (h - 1 - j) as i64;
    let (i, j) = (i as i64, j as i64);
    proof {
        let l = CORNER_LIMIT as int;
        lemma_mul_bound(p.top_left[a as int] as int, ju as int, l, 4096);
        lemma_mul_bound(p.bottom_left[a as int] as int, j as int, l, 4096);
        lemma_mul_bound(p.top_right[a as int] as int, ju as int, l, 4096);
        lemma_mul_bound(p.bottom_right[a as int] as int, j as int, l, 4096);
        assert(ju * p.top_left[a as int] == p.top_left[a as int] * ju) by (nonlinear_arith);
        assert(j * p.bottom_left[a as int] == p.bottom_left[a as int] * j) by (nonlinear_arith);
        assert(ju * p.top_right[a as int] == p.top_right[a as int] * ju) by (nonlinear_arith);
        assert(j * p.bottom_right[a as int] == p.bottom_right[a as int] * j) by (nonlinear_arith);
        let left = ju * p.top_left[a as int] + j * p.bottom_left[a as int];
        let right = ju * p.top_right[a as int] + j * p.bottom_right[a as int];
        lemma_mul_bound(left, iu as int, 68719476736, 4096);
        lemma_mul_bound(right, i as int, 68719476736, 4096);
        assert(left * iu == iu * left) by (nonlinear_arith);
        assert(right * i == i * right) by (nonlinear_arith);
    }
    let left: i128 = (ju as i128) * (p.top_left[a] as i128) + (j as i128) * (p.bottom_left[a] as i128);
    let right: i128 = (ju as i128) * (p.top_right[a] as i128) + (j as i128) * (p.bottom_right[a] as i128);
    let r: i128 = (iu as i128) * left + (i as i128) * right;
    r as i64
}

/// The ray through pixel `(i, j)` of a `w` by `h` screen: it starts at the matching
/// point of the near plane and heads for the matching point of the far plane.
pub fn pixel_ray(near: &FrustumPlane, far: &FrustumPlane, i: usize, j: usize, w: usize, h: usize) -> (r:
    PixelRay)
    requires
        near.wf(),
        far.wf(),
        2 <= w <= MAX_SCREEN,
        2 <= h <= MAX_SCREEN,
        i < w,
        j < h,
    ensures
        r.units == (w - 1) * (h - 1),
        forall|a: int|
            0 <= a < 3 ==> #[trigger] r.origin[a] == near.bilerp(i as int, j as int, w as int, h as int, a),
        forall|a: int|
            0 <= a < 3 ==> #[trigger] r.dir[a] == far.bilerp(i as int, j as int, w as int, h as int, a)
                - near.bilerp(i as int, j as int, w as int, h as int, a),
        in_limit(r.origin@),
        in_limit(r.dir@),
{
    let mut origin: [i64; 3] = [0, 0, 0];
    let mut dir: [i64; 3] = [0, 0, 0];
    let mut a: usize = 0;
    while a < 3
        invariant
            0 <= a <= 3,
            near.wf(),
            far.wf(),
            2 <= w <= MAX_SCREEN,
            2 <= h <= MAX_SCREEN,
            i < w,
            j < h,
            forall|b: int|
                0 <= b < a ==> #[trigger] origin[b] == near.bilerp(i as int, j as int, w as int, h as int, b),
            forall|b: int|
                0 <= b < a ==> #[trigger] dir[b] == far.bilerp(i as int, j as int, w as int, h as int, b)
                    - near.bilerp(i as int, j as int, w as int, h as int, b),
            forall|b: int| 0 <= b < a ==> -COORD_LIMIT <= #[trigger] origin[b] <= COORD_LIMIT,
            forall|b: int| 0 <= b < a ==> -COORD_LIMIT <= #[trigger] dir[b] <= COORD_LIMIT,
        decreases 3 - a,
    {
        proof {
            lemma_bilerp_bound(near, i as int, j as int, w as int, h as int, a as int);
            lemma_bilerp_bound(far, i as int, j as int, w as int, h as int, a as int);
        }
        let o = bilerp_exec(near, i, j, w, h, a);
        let f = bilerp_exec(far, i, j, w, h, a);
        origin[a] = o;
        dir[a] = f - o;
        a = a + 1;
    }
    proof {
        assert(((w - 1) * (h - 1)) <= 4096 * 4096) by (nonlinear_arith)
            requires
                w <= 4096,
                h <= 4096,
                w >= 2,
                h >= 2,
        ;
    }
    PixelRay { origin, dir, units: ((w - 1) * (h - 1)) as i64 }
}

/// The ray of the top-left pixel starts at the near plane's top-left corner, and
/// the ray of the bottom-right pixel at its bottom-right corner.
pub proof fn lemma_pixel_ray_corners(near: &FrustumPlane, w: int, h: int, a: int)
    requires
        2 <= w,
        2 <= h,
        0 <= a < 3,
    ensures
        near.bilerp(0, 0, w, h, a) == (w - 1) * (h - 1) * near.top_left[a],
        near.bilerp(w - 1, h - 1, w, h, a) == (w - 1) * (h - 1) * near.bottom_right[a],
{
    let (tl, br) = (near.top_left[a] as int, near.bottom_right[a] as int);
    assert((w - 1) * ((h - 1) * tl) == (w - 1) * (h - 1) * tl) by (nonlinear_arith);
    assert((w - 1) * ((h - 1) * br) == (w - 1) * (h - 1) * br) by (nonlinear_arith);
}

/// `(origin, dir)` is the ray through pixel `(i, j)` of a `w` by `h` screen.
pub open spec fn is_pixel_ray(
    near: &FrustumPlane,
    far: &FrustumPlane,
    i: int,
    j: int,
    w: int,
    h: int,
    origin: [i64; 3],
    dir: [i64; 3],
) -> bool {
    forall|a: int|
        0 <= a < 3 ==> #[trigger] origin[a] == near.bilerp(i, j, w, h, a) && dir[a] == far.bilerp(
            i,
            j,
            w,
            h,
            a,
        ) - near.bilerp(i, j, w, h, a)
}

/// The palette index a pixel shows: the hit's color, or what it held before on a miss.
pub open spec fn shade(hit: Option<(Ratio, u8)>, background: u8) -> u8 {
    match hit {
        Some((_, color_id)) => color_id,
        None => background,
    }
}

/// Pixel `(i, j)` shows `value`: the color of the nearest hit of its ray, or
/// `background` when nothing is hit.
pub open spec fn pixel_shows(
    instances: Seq<VoxelInstance>,
    scale: i64,
    near: &FrustumPlane,
    far: &FrustumPlane,
    i: int,
    j: int,
    w: int,
    h: int,
    value: u8,
    background: u8,
) -> bool {
    exists|o: [i64; 3], d: [i64; 3]|
        #[trigger] is_pixel_ray(near, far, i, j, w, h, o, d) && value == shade(
            nearest_upto(instances, instances.len() as int, scale, o, d),
            background,
        )
}

/// Casts the ray of each pixel of screen row `j` against every instance and writes
/// the nearest hit's color into `row`; pixels with no hit keep their value.
/// Instance anchors and `scale` are in the rays' units (`(w - 1) * (h - 1)` per
/// world unit).
pub fn render_row(
    instances: &Vec<VoxelInstance>,
    scale: i64,
    near: &FrustumPlane,
    far: &FrustumPlane,
    j: usize,
    w: usize,
    h: usize,
    row: &mut Vec<u8>,
)
    requires
        forall|k: int| 0 <= k < instances.len() ==> (#[trigger] instances[k]).wf(),
        1 <= scale <= MAX_SCALE,
        near.wf(),
        far.wf(),
        2 <= w <= MAX_SCREEN,
        2 <= h <= MAX_SCREEN,
        j < h,
        old(row).len() == w,
    ensures
        final(row).len() == w,
        forall|i: int|
            0 <= i < w ==> #[trigger] pixel_shows(
                instances@,
                scale,
                near,
                far,
                i,
                j as int,
                w as int,
                h as int,
                final(row)[i],
                old(row)[i],
            ),
{
    let ghost before = row@;
    let mut i: usize = 0;
    while i < w
        invariant
            0 <= i <= w,
            forall|k: int| 0 <= k < instances.len() ==> (#[trigger] instances[k]).wf(),
            1 <= scale <= MAX_SCALE,
            near.wf(),
            far.wf(),
            2 <= w <= MAX_SCREEN,
            2 <= h <= MAX_SCREEN,
            j < h,
            row.len() == w,
            before.len() == w,
            forall|k: int| i <= k < w ==> row[k] == before[k],
            forall|k: int|
                0 <= k < i ==> #[trigger] pixel_shows(
                    instances@,
                    scale,
                    near,
                    far,
                    k,
                    j as int,
                    w as int,
                    h as int,
                    row[k],
                    before[k],
                ),
        decreases w - i,
    {
        let ray = pixel_ray(near, far, i, j, w, h);
        let hit = cast_ray_to_instances(instances, scale, ray.origin, ray.dir);
        match hit {
            Some((_, color_id)) => {
                row.set(i, color_id);
            },
            None => {},
        }
        assert(is_pixel_ray(near, far, i as int, j as int, w as int, h as int, ray.origin, ray.dir));
        i = i + 1;
    }
}

/// Splits `height` rows into `count` consecutive bands `[start, end)` that tile
/// `[0, height)` with no gap and no overlap; band sizes differ by at most one.
pub fn row_bands(height: usize, count: usize) -> (r: Vec<(usize, usize)>)
    requires
        count >= 1,
    ensures
        r.len() == count,
        r[0].0 == 0,
        r[count - 1].1 == height,
        forall|k: int| 0 <= k < count - 1 ==> #[trigger] r[k].1 == r[k + 1].0,
        forall|k: int|
            0 <= k < count ==> height / count <= #[trigger] r[k].1 - r[k].0 <= height / count + 1,
{
    let base = height / count;
    let extra = height % count;
    let mut bands: Vec<(usize, usize)> = Vec::new();
    let mut start: usize = 0;
    let mut k: usize = 0;
    proof {
        assert(base * count + extra == height) by (nonlinear_arith)
            requires
                base == height / count,
                extra == height % count,
                count >= 1,
        ;
    }
    while k < count
        invariant
            0 <= k <= count,
            count >= 1,
            base == height / count,
            extra == height % count,
            extra < count,
            base * count + extra == height,
            bands.len() == k,
            start == base * k + if k < extra { k } else { extra },
            k > 0 ==> bands[k - 1].1 == start,
            k > 0 ==> bands[0].0 == 0,
            k == 0 ==> start == 0,
            forall|q: int| 0 <= q < k - 1 ==> #[trigger] bands[q].1 == bands[q + 1].0,
            forall|q: int| 0 <= q < k ==> base <= #[trigger] bands[q].1 - bands[q].0 <= base + 1,
        decreases count - k,
    {
        proof {
            assert(base * k + k <= base * count + extra + count) by (nonlinear_arith)
                requires
                    k <= count,
                    0 <= base,
                    0 <= extra,
            ;
            assert(base * (k + 1) == base * k + base) by (nonlinear_arith);
            assert(base * (k + 1) <= base * count) by (nonlinear_arith)
                requires
                    k + 1 <= count,
                    0 <= base,
            ;
        }
        let size = if k < extra { base + 1 } else { base };
        let end = start + size;
        bands.push((start, end));
        start = end;
        k = k + 1;
    }
    proof {
        assert(base * count == base * k);
    }
    bands
}

} // verus!
