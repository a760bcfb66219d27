//! What a nearest-hit walk reports: a real opaque hit, and the nearest one.
use vstd::prelude::*;
use crate::ray_queries::{
    box_entry, cell_min, cell_size, in_limit, lemma_box_entry, lemma_le_trans, model_hit, pos_ok,
    ratio_le, ratio_lt, sizes_ok, to_ratio, Ratio, VoxelIntersector, COORD_LIMIT, MAX_SCALE,
    accepted, cand, origin_inside,
};
use crate::slab_laws::{box_within, lemma_entry_monotone};
use crate::voxel_model::{
    box_ok, child_max, child_min, lemma_child_box, traverse_kids, traverse_spec, zero3, VoxelData,
    VoxelDataVisitor, VoxelModel,
};

verus! {

/// A fresh intersector for the ray against the instance anchored at `pos`.
pub open spec fn fresh(pos: [i64; 3], scale: i64, ray_origin: [i64; 3], ray_dir: [i64; 3]) -> VoxelIntersector {
    VoxelIntersector { ray_origin, ray_dir, pos, scale, min: None }
}

/// Nearest-hit correctness: the hit reported for a volume is the entry point and
/// color of an opaque leaf that the ray hits, no opaque leaf is hit earlier, and
/// nothing is reported exactly when the ray hits no opaque leaf.
pub proof fn lemma_model_hit_nearest(
    model: &VoxelModel,
    pos: [i64; 3],
    scale: i64,
    ray_origin: [i64; 3],
    ray_dir: [i64; 3],
)
    requires
        model.wf(),
        in_limit(ray_origin@),
        in_limit(ray_dir@),
        pos_ok(pos@),
        1 <= scale <= MAX_SCALE,
    ensures
        model_hit(model, pos, scale, ray_origin, ray_dir) is None <==> forall|path: Seq<int>, lmin: Seq<usize>, lmax: Seq<usize>, c: u8|
            #[trigger] leaf_at(model.data, zero3(), model.size@, path, lmin, lmax, c) && c != 0
                ==> fresh(pos, scale, ray_origin, ray_dir).hit_of(lmin, lmax) is None,
        model_hit(model, pos, scale, ray_origin, ray_dir) matches Some((t, c)) ==> exists|path: Seq<int>, lmin: Seq<usize>, lmax: Seq<usize>|
            #[trigger] leaf_at(model.data, zero3(), model.size@, path, lmin, lmax, c) && c != 0
                && fresh(pos, scale, ray_origin, ray_dir).hit_of(lmin, lmax) == Some(t@),
        model_hit(model, pos, scale, ray_origin, ray_dir) matches Some((t, _)) ==> forall|path: Seq<int>, lmin: Seq<usize>, lmax: Seq<usize>, c: u8|
            #[trigger] leaf_at(model.data, zero3(), model.size@, path, lmin, lmax, c) && c != 0
                && fresh(pos, scale, ray_origin, ray_dir).hit_of(lmin, lmax) is Some
                ==> ratio_le(t@, fresh(pos, scale, ray_origin, ray_dir).hit_of(lmin, lmax)->Some_0),
{
    let v = fresh(pos, scale, ray_origin, ray_dir);
    let (zero, size) = (zero3(), model.size@);
    lemma_traverse_sound(model.data, zero, size, v);
    lemma_traverse_nearest(model.data, zero, size, v);
    let r = traverse_spec(model.data, zero, size, v);
    if r.min is Some {
        let (path, lmin, lmax, c) = choose|path: Seq<int>, lmin: Seq<usize>, lmax: Seq<usize>, c: u8|
            #[trigger] leaf_at(model.data, zero, size, path, lmin, lmax, c) && c != 0 && v.hit_of(lmin, lmax) is Some
                && r.min == Some((to_ratio(v.hit_of(lmin, lmax)->Some_0), c));
        lemma_leaf_box(model.data, zero, size, path, lmin, lmax, c);
        lemma_cell_box(v, lmin, lmax);
        lemma_entry_bounds(ray_origin@, ray_dir@, cell_min(pos@, scale, lmin), cell_size(scale, lmin, lmax));
        let h = v.hit_of(lmin, lmax)->Some_0;
        assert(to_ratio(h)@ == h);
        assert(leaf_at(model.data, zero3(), model.size@, path, lmin, lmax, c) && c != 0
            && v.hit_of(lmin, lmax) == Some(r.min->Some_0.0@));
        assert(r.min == model_hit(model, pos, scale, ray_origin, ray_dir));
        assert(r.min->Some_0.1 == c);
        assert(exists|path: Seq<int>, lmin: Seq<usize>, lmax: Seq<usize>|
            #[trigger] leaf_at(model.data, zero3(), model.size@, path, lmin, lmax, c) && c != 0
                && fresh(pos, scale, ray_origin, ray_dir).hit_of(lmin, lmax) == Some(r.min->Some_0.0@));
    }
}

/// Walked in the box `[min_p, max_p]`, `d` holds at child path `path` (octant
/// indices from the top) a leaf of color `c` whose box is `[lmin, lmax]`.
pub open spec fn leaf_at(
    d: VoxelData,
    min_p: Seq<usize>,
    max_p: Seq<usize>,
    path: Seq<int>,
    lmin: Seq<usize>,
    lmax: Seq<usize>,
    c: u8,
) -> bool
    decreases d,
{
    match d {
        VoxelData::Leaf { color_id } => path.len() == 0 && color_id == c && min_p == lmin && max_p
            == lmax,
        VoxelData::Node2x2x2 { children } => {
            let m = path[0];
            &&& path.len() > 0
            &&& 0 <= m < children.len()
            &&& leaf_at(
                children[m],
                child_min(min_p, max_p, m),
                child_max(min_p, max_p, m),
                path.drop_first(),
                lmin,
                lmax,
                c,
            )
        },
    }
}

/// `after` is `before` with at most its best hit changed.
pub open spec fn same_ray(before: VoxelIntersector, after: VoxelIntersector) -> bool {
    &&& after.ray_origin == before.ray_origin
    &&& after.ray_dir == before.ray_dir
    &&& after.pos == before.pos
    &&& after.scale == before.scale
}

/// The walk either keeps the best hit it started with, or ends on the entry point
/// and color of an opaque leaf of `d` that the ray hits.
pub open spec fn hit_from_leaf(
    d: VoxelData,
    min_p: Seq<usize>,
    max_p: Seq<usize>,
    v: VoxelIntersector,
    r: VoxelIntersector,
) -> bool {
    r.min == v.min || exists|path: Seq<int>, lmin: Seq<usize>, lmax: Seq<usize>, c: u8|
        #[trigger] leaf_at(d, min_p, max_p, path, lmin, lmax, c) && c != 0 && v.hit_of(lmin, lmax) is Some
            && r.min == Some((to_ratio(v.hit_of(lmin, lmax)->Some_0), c))
}

/// Every hit a walk records comes from an opaque leaf of the walked tree.
pub proof fn lemma_traverse_sound(
    d: VoxelData,
    min_p: Seq<usize>,
    max_p: Seq<usize>,
    v: VoxelIntersector,
)
    requires
        d.wf(),
        v.inv(),
        box_ok(min_p, max_p),
    ensures
        same_ray(v, traverse_spec(d, min_p, max_p, v)),
        hit_from_leaf(d, min_p, max_p, v, traverse_spec(d, min_p, max_p, v)),
    decreases d, 9nat,
{
    let (v1, go) = v.visit_spec(min_p, max_p, d);
    if go && d is Node2x2x2 {
        lemma_kids_sound(d, min_p, max_p, v1, 8);
    } else if let VoxelData::Leaf { color_id } = d {
        if v1.min != v.min {
            assert(leaf_at(d, min_p, max_p, Seq::empty(), min_p, max_p, color_id));
        }
    }
}

proof fn lemma_kids_sound(
    d: VoxelData,
    min_p: Seq<usize>,
    max_p: Seq<usize>,
    v: VoxelIntersector,
    n: nat,
)
    requires
        d.wf(),
        d is Node2x2x2,
        v.inv(),
        box_ok(min_p, max_p),
        n <= 8,
    ensures
        same_ray(v, traverse_kids(d, min_p, max_p, v, n)),
        hit_from_leaf(d, min_p, max_p, v, traverse_kids(d, min_p, max_p, v, n)),
    decreases d, n,
{
    if n > 0 {
        lemma_kids_sound(d, min_p, max_p, v, (n - 1) as nat);
        let before = traverse_kids(d, min_p, max_p, v, (n - 1) as nat);
        let m = n - 1;
        let children = d->Node2x2x2_children;
        let (cmin, cmax) = (child_min(min_p, max_p, m), child_max(min_p, max_p, m));
        lemma_child_box(min_p, max_p, m);
        assert(children[m].wf());
        assert(before.inv()) by {
            lemma_kids_inv(d, min_p, max_p, v, (n - 1) as nat);
        }
        lemma_traverse_sound(children[m], cmin, cmax, before);
        let r = traverse_kids(d, min_p, max_p, v, n);
        if r.min != before.min {
            let (path, lmin, lmax, c) = choose|path: Seq<int>, lmin: Seq<usize>, lmax: Seq<usize>, c: u8|
                #[trigger] leaf_at(children[m], cmin, cmax, path, lmin, lmax, c) && c != 0
                    && before.hit_of(lmin, lmax) is Some && r.min == Some(
                    (to_ratio(before.hit_of(lmin, lmax)->Some_0), c),
                );
            let full = seq![m].add(path);
            assert(full.drop_first() =~= path);
            assert(leaf_at(d, min_p, max_p, full, lmin, lmax, c));
        }
    }
}

/// Walking keeps the intersector's invariant.
proof fn lemma_kids_inv(
    d: VoxelData,
    min_p: Seq<usize>,
    max_p: Seq<usize>,
    v: VoxelIntersector,
    n: nat,
)
    requires
        d.wf(),
        d is Node2x2x2,
        v.inv(),
        box_ok(min_p, max_p),
        n <= 8,
    ensures
        traverse_kids(d, min_p, max_p, v, n).inv(),
    decreases d, n,
{
    if n > 0 {
        lemma_kids_inv(d, min_p, max_p, v, (n - 1) as nat);
        let before = traverse_kids(d, min_p, max_p, v, (n - 1) as nat);
        let m = n - 1;
        let children = d->Node2x2x2_children;
        lemma_child_box(min_p, max_p, m);
        assert(children[m].wf());
        lemma_traverse_inv(children[m], child_min(min_p, max_p, m), child_max(min_p, max_p, m), before);
    }
}

proof fn lemma_traverse_inv(d: VoxelData, min_p: Seq<usize>, max_p: Seq<usize>, v: VoxelIntersector)
    requires
        d.wf(),
        v.inv(),
        box_ok(min_p, max_p),
    ensures
        traverse_spec(d, min_p, max_p, v).inv(),
    decreases d, 9nat,
{
    let (v1, go) = v.visit_spec(min_p, max_p, d);
    assert(v1.inv()) by {
        lemma_visit_inv(v, min_p, max_p, d);
    }
    if go && d is Node2x2x2 {
        lemma_kids_inv(d, min_p, max_p, v1, 8);
    }
}

proof fn lemma_visit_inv(v: VoxelIntersector, min_p: Seq<usize>, max_p: Seq<usize>, d: VoxelData)
    requires
        v.inv(),
        box_ok(min_p, max_p),
    ensures
        v.visit_spec(min_p, max_p, d).0.inv(),
{
    lemma_cell_box(v, min_p, max_p);
    lemma_box_entry(v.ray_origin@, v.ray_dir@, cell_min(v.pos@, v.scale, min_p), cell_size(v.scale, min_p, max_p));
}

/// A voxel box of a valid intersector is a valid box for the slab test.
proof fn lemma_cell_box(v: VoxelIntersector, min_p: Seq<usize>, max_p: Seq<usize>)
    requires
        v.inv(),
        box_ok(min_p, max_p),
    ensures
        in_limit(cell_min(v.pos@, v.scale, min_p)),
        sizes_ok(cell_size(v.scale, min_p, max_p)),
        forall|a: int|
            0 <= a < 3 ==> #[trigger] cell_min(v.pos@, v.scale, min_p)[a] == v.pos[a] + min_p[a]
                * v.scale && cell_size(v.scale, min_p, max_p)[a] == (max_p[a] - min_p[a]) * v.scale,
{
    assert forall|a: int| 0 <= a < 3 implies 0 <= #[trigger] min_p[a] * v.scale <= 16777216 * 16777216
        && 0 <= (max_p[a] - min_p[a]) * v.scale <= 16777216 * 16777216 by {
        let (lo, ext) = (min_p[a] as int, max_p[a] - min_p[a]);
        assert(0 <= lo * v.scale <= 16777216 * 16777216) by (nonlinear_arith)
            requires
                0 <= lo <= 16777216,
                1 <= v.scale <= 16777216,
        ;
        assert(0 <= ext * v.scale <= 16777216 * 16777216) by (nonlinear_arith)
            requires
                0 <= ext <= 16777216,
                1 <= v.scale <= 16777216,
        ;
    }
}

/// `r` holds a hit no later than `t`.
pub open spec fn no_later(r: Option<(Ratio, u8)>, t: (int, int)) -> bool {
    r matches Some((u, _)) && ratio_le(u@, t)
}

/// Entry points of valid boxes fit a `Ratio`.
proof fn lemma_entry_bounds(o: Seq<i64>, d: Seq<i64>, p0: Seq<i64>, size: Seq<i64>)
    requires
        in_limit(o),
        in_limit(d),
        in_limit(p0),
        sizes_ok(size),
    ensures
        box_entry(o, d, p0, size) matches Some(t) ==> 0 <= t.0 <= 4 * COORD_LIMIT && 0 < t.1
            <= COORD_LIMIT && to_ratio(t)@ == t,
{
    lemma_box_entry(o, d, p0, size);
    if !origin_inside(o, p0, size) && box_entry(o, d, p0, size) is Some {
        let t = box_entry(o, d, p0, size)->Some_0;
        let c = choose|c: int| 0 <= c < 6 && #[trigger] accepted(o, d, p0, size, c) && cand(o, d, p0, size, c) == t;
        let a = c / 2;
        assert(-COORD_LIMIT <= o[a] <= COORD_LIMIT && -COORD_LIMIT <= d[a] <= COORD_LIMIT);
        assert(-COORD_LIMIT <= p0[a] <= COORD_LIMIT && 0 <= size[a] <= COORD_LIMIT);
    }
}

/// The voxel box of a leaf lies within the box of every node above it.
proof fn lemma_leaf_box(
    d: VoxelData,
    min_p: Seq<usize>,
    max_p: Seq<usize>,
    path: Seq<int>,
    lmin: Seq<usize>,
    lmax: Seq<usize>,
    c: u8,
)
    requires
        d.wf(),
        box_ok(min_p, max_p),
        leaf_at(d, min_p, max_p, path, lmin, lmax, c),
    ensures
        box_ok(lmin, lmax),
        forall|a: int| 0 <= a < 3 ==> min_p[a] <= #[trigger] lmin[a] && lmax[a] <= max_p[a],
    decreases d,
{
    if let VoxelData::Node2x2x2 { children } = d {
        let m = path[0];
        assert(children[m].wf());
        lemma_child_box(min_p, max_p, m);
        lemma_leaf_box(children[m], child_min(min_p, max_p, m), child_max(min_p, max_p, m), path.drop_first(), lmin, lmax, c);
    }
}

/// World boxes keep the nesting of voxel boxes.
proof fn lemma_cell_within(v: VoxelIntersector, min_p: Seq<usize>, max_p: Seq<usize>, lmin: Seq<usize>, lmax: Seq<usize>)
    requires
        v.inv(),
        box_ok(min_p, max_p),
        box_ok(lmin, lmax),
        forall|a: int| 0 <= a < 3 ==> min_p[a] <= #[trigger] lmin[a] && lmax[a] <= max_p[a],
    ensures
        box_within(
            cell_min(v.pos@, v.scale, lmin),
            cell_size(v.scale, lmin, lmax),
            cell_min(v.pos@, v.scale, min_p),
            cell_size(v.scale, min_p, max_p),
        ),
{
    lemma_cell_box(v, min_p, max_p);
    lemma_cell_box(v, lmin, lmax);
    assert forall|a: int| 0 <= a < 3 implies min_p[a] * v.scale <= #[trigger] lmin[a] * v.scale
        && lmin[a] * v.scale + (lmax[a] - lmin[a]) * v.scale <= min_p[a] * v.scale + (max_p[a]
        - min_p[a]) * v.scale by {
        let (x0, x1, y0, y1, k) = (min_p[a] as int, max_p[a] as int, lmin[a] as int, lmax[a] as int, v.scale as int);
        assert(x0 <= y0 && y1 <= x1);
        assert(x0 * k <= y0 * k) by (nonlinear_arith)
            requires
                x0 <= y0,
                k > 0,
        ;
        assert(y0 * k + (y1 - y0) * k == y1 * k) by (nonlinear_arith);
        assert(x0 * k + (x1 - x0) * k == x1 * k) by (nonlinear_arith);
        assert(y1 * k <= x1 * k) by (nonlinear_arith)
            requires
                y1 <= x1,
                k > 0,
        ;
    }
    let (q0, qs, p0, ps) = (
        cell_min(v.pos@, v.scale, lmin),
        cell_size(v.scale, lmin, lmax),
        cell_min(v.pos@, v.scale, min_p),
        cell_size(v.scale, min_p, max_p),
    );
    assert forall|a: int| 0 <= a < 3 implies p0[a] <= #[trigger] q0[a] && 0 <= qs[a] && q0[a] + qs[a] <= p0[a] + ps[a] by {
        assert(min_p[a] * v.scale <= lmin[a] * v.scale);
    }
}

/// A walk never loses its best hit, and ends no later than any opaque leaf of `d`
/// that the ray hits.
proof fn lemma_traverse_nearest(d: VoxelData, min_p: Seq<usize>, max_p: Seq<usize>, v: VoxelIntersector)
    requires
        d.wf(),
        v.inv(),
        box_ok(min_p, max_p),
    ensures
        v.min matches Some((u, _)) ==> no_later(traverse_spec(d, min_p, max_p, v).min, u@),
        forall|path: Seq<int>, lmin: Seq<usize>, lmax: Seq<usize>, c: u8|
            #[trigger] leaf_at(d, min_p, max_p, path, lmin, lmax, c) && c != 0 && v.hit_of(lmin, lmax) is Some
                ==> no_later(traverse_spec(d, min_p, max_p, v).min, v.hit_of(lmin, lmax)->Some_0),
    decreases d, 9nat,
{
    let (v1, go) = v.visit_spec(min_p, max_p, d);
    let hb = v.hit_of(min_p, max_p);
    lemma_cell_box(v, min_p, max_p);
    lemma_entry_bounds(v.ray_origin@, v.ray_dir@, cell_min(v.pos@, v.scale, min_p), cell_size(v.scale, min_p, max_p));
    if let Some((u, _)) = v.min {
        assert(ratio_le(u@, u@));
    }
    match d {
        VoxelData::Leaf { color_id } => {
            if let Some(h) = hb {
                assert(ratio_le(h, h));
                if let Some((u, _)) = v.min {
                    if !ratio_lt(h, u@) {
                        assert(ratio_le(u@, h));
                    } else {
                        assert(ratio_le(h, u@));
                    }
                }
            }
        },
        VoxelData::Node2x2x2 { children } => {
            if go {
                lemma_kids_nearest(d, min_p, max_p, v1, 8);
            } else {
                assert forall|path: Seq<int>, lmin: Seq<usize>, lmax: Seq<usize>, c: u8|
                    #[trigger] leaf_at(d, min_p, max_p, path, lmin, lmax, c) && c != 0 && v.hit_of(lmin, lmax) is Some
                        implies no_later(traverse_spec(d, min_p, max_p, v).min, v.hit_of(lmin, lmax)->Some_0) by {
                    lemma_leaf_box(d, min_p, max_p, path, lmin, lmax, c);
                    lemma_cell_within(v, min_p, max_p, lmin, lmax);
                    lemma_cell_box(v, lmin, lmax);
                    lemma_entry_monotone(
                        v.ray_origin@,
                        v.ray_dir@,
                        cell_min(v.pos@, v.scale, min_p),
                        cell_size(v.scale, min_p, max_p),
                        cell_min(v.pos@, v.scale, lmin),
                        cell_size(v.scale, lmin, lmax),
                    );
                    let h = v.hit_of(lmin, lmax)->Some_0;
                    let b = hb->Some_0;
                    lemma_box_entry(v.ray_origin@, v.ray_dir@, cell_min(v.pos@, v.scale, lmin), cell_size(v.scale, lmin, lmax));
                    lemma_entry_bounds(v.ray_origin@, v.ray_dir@, cell_min(v.pos@, v.scale, lmin), cell_size(v.scale, lmin, lmax));
                    let u = v.min->Some_0.0;
                    assert(ratio_le(u@, b));
                    lemma_le_trans(u@, b, h);
                }
            }
        },
    }
}

proof fn lemma_kids_nearest(d: VoxelData, min_p: Seq<usize>, max_p: Seq<usize>, v: VoxelIntersector, n: nat)
    requires
        d.wf(),
        d is Node2x2x2,
        v.inv(),
        box_ok(min_p, max_p),
        n <= 8,
    ensures
        v.min matches Some((u, _)) ==> no_later(traverse_kids(d, min_p, max_p, v, n).min, u@),
        forall|path: Seq<int>, lmin: Seq<usize>, lmax: Seq<usize>, c: u8|
            #[trigger] leaf_at(d, min_p, max_p, path, lmin, lmax, c) && path[0] < n && c != 0 && v.hit_of(lmin, lmax) is Some
                ==> no_later(traverse_kids(d, min_p, max_p, v, n).min, v.hit_of(lmin, lmax)->Some_0),
    decreases d, n,
{
    if let Some((u, _)) = v.min {
        assert(ratio_le(u@, u@));
    }
    if n > 0 {
        lemma_kids_nearest(d, min_p, max_p, v, (n - 1) as nat);
        lemma_kids_inv(d, min_p, max_p, v, (n - 1) as nat);
        lemma_kids_sound(d, min_p, max_p, v, (n - 1) as nat);
        let before = traverse_kids(d, min_p, max_p, v, (n - 1) as nat);
        let m = n - 1;
        let children = d->Node2x2x2_children;
        let (cmin, cmax) = (child_min(min_p, max_p, m), child_max(min_p, max_p, m));
        lemma_child_box(min_p, max_p, m);
        assert(children[m].wf());
        lemma_traverse_nearest(children[m], cmin, cmax, before);
        lemma_traverse_inv(children[m], cmin, cmax, before);
        let r = traverse_kids(d, min_p, max_p, v, n);
        assert(r == traverse_spec(children[m], cmin, cmax, before));
        assert forall|path: Seq<int>, lmin: Seq<usize>, lmax: Seq<usize>, c: u8|
            #[trigger] leaf_at(d, min_p, max_p, path, lmin, lmax, c) && path[0] < n && c != 0 && v.hit_of(lmin, lmax) is Some
                implies no_later(r.min, v.hit_of(lmin, lmax)->Some_0) by {
            let h = v.hit_of(lmin, lmax)->Some_0;
            if path[0] == m {
                assert(leaf_at(children[m], cmin, cmax, path.drop_first(), lmin, lmax, c));
            } else {
                let b = before.min->Some_0.0;
                assert(ratio_le(b@, h));
                let rr = r.min->Some_0.0;
                assert(ratio_le(rr@, b@));
                assert(b@.1 > 0 && rr@.1 > 0);
                lemma_box_entry(v.ray_origin@, v.ray_dir@, cell_min(v.pos@, v.scale, lmin), cell_size(v.scale, lmin, lmax));
                lemma_leaf_box(d, min_p, max_p, path, lmin, lmax, c);
                lemma_cell_box(v, lmin, lmax);
                lemma_entry_bounds(v.ray_origin@, v.ray_dir@, cell_min(v.pos@, v.scale, lmin), cell_size(v.scale, lmin, lmax));
                lemma_le_trans(rr@, b@, h);
            }
        }
        if let Some((u, _)) = v.min {
            let b = before.min->Some_0.0;
            let rr = r.min->Some_0.0;
            assert(b@.1 > 0 && rr@.1 > 0 && u@.1 > 0);
            lemma_le_trans(rr@, b@, u@);
        }
    }
}

} // verus!
