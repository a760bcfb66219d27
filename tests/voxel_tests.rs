use voxel_caster::ray_queries::{
    cast_ray_to_box, cast_ray_to_instances, cast_ray_to_model, Ratio, Voxel, VoxelInstance,
};
use voxel_caster::loaders::{create_voxel_model_from_2d_tile, load_xraw, read_xraw_header, XrawError};
use voxel_caster::rendering::{pixel_ray, render_row, row_bands, FrustumPlane};
use voxel_caster::voxel_model::{VoxelData, VoxelModel};

fn value(t: &Ratio) -> f64 {
    t.num as f64 / t.den as f64
}

fn color_of(d: &VoxelData, n: usize, x: usize, y: usize, z: usize) -> u8 {
    match d {
        VoxelData::Leaf { color_id } => *color_id,
        VoxelData::Node2x2x2 { children } => {
            let h = n / 2;
            let (i, j, k) = ((x >= h) as usize, (y >= h) as usize, (z >= h) as usize);
            color_of(&children[i + 2 * j + 4 * k], h, x - i * h, y - j * h, z - k * h)
        }
    }
}

fn same_tree(a: &VoxelData, b: &VoxelData) -> bool {
    match (a, b) {
        (VoxelData::Leaf { color_id: x }, VoxelData::Leaf { color_id: y }) => x == y,
        (VoxelData::Node2x2x2 { children: x }, VoxelData::Node2x2x2 { children: y }) => {
            x.len() == y.len() && x.iter().zip(y.iter()).all(|(p, q)| same_tree(p, q))
        }
        _ => false,
    }
}

fn sphere_like(x: usize, y: usize, z: usize) -> VoxelData {
    let d = |c: usize| (2 * c as i64 - 7) * (2 * c as i64 - 7);
    VoxelData::make_leaf(if d(x) + d(y) + d(z) <= 49 { 5 } else { 0 })
}

fn unit_model(colors: [u8; 8]) -> VoxelModel {
    VoxelModel {
        size: [2, 2, 2],
        data: VoxelData::make_2x2x2(move |i, j, k| VoxelData::make_leaf(colors[i + 2 * j + 4 * k])),
    }
}

#[test]
fn test_cast_ray_to_box() {
    // coordinates in units of 1e-7
    let s: i64 = 10_000_000;
    let p0 = [-16 * s, -48 * s, 96 * s];
    let size_0 = [32 * s, 32 * s, 32 * s];
    let p1 = [-16 * s, -48 * s, 64 * s];
    let size_1 = [32 * s, 32 * s, 32 * s];
    let ray_dir = [52_224, -5_572_115, 8_303_543];

    let ray_origin = [0, -24 * s, 70 * s];
    let t0 = cast_ray_to_box(ray_origin, ray_dir, p0, size_0);
    let t1 = cast_ray_to_box(ray_origin, ray_dir, p1, size_1);
    println!("{:?}, {:?}", t0.as_ref().map(value), t1.as_ref().map(value));
    assert!(t0.is_some());
    assert_eq!(t1.map(|t| t.num), Some(0));

    let ray_origin = [0, -24 * s, 72 * s];
    let t0 = cast_ray_to_box(ray_origin, ray_dir, p0, size_0);
    let t1 = cast_ray_to_box(ray_origin, ray_dir, p1, size_1);
    println!("{:?}, {:?}", t0.as_ref().map(value), t1.as_ref().map(value));

    let ray_origin = [0, -24 * s, 80 * s];
    let t0 = cast_ray_to_box(ray_origin, ray_dir, p0, size_0);
    let t1 = cast_ray_to_box(ray_origin, ray_dir, p1, size_1);
    println!("{:?}, {:?}", t0.as_ref().map(value), t1.as_ref().map(value));
    assert_eq!(t1.map(|t| t.num), Some(0));
}

#[test]
fn compact_merges_uniform_tree() {
    let t = VoxelData::make_4x4x4(|_, _, _| VoxelData::make_leaf(3));
    let c = t.compact();
    assert!(matches!(c, VoxelData::Leaf { color_id: 3 }));
}

#[test]
fn compact_keeps_mixed_branch() {
    let t = VoxelData::make_2x2x2(|i, _, _| VoxelData::make_leaf(i as u8));
    let c = t.compact();
    assert!(same_tree(&c, &t));
}

#[test]
fn compact_is_idempotent() {
    let t = VoxelData::make_8x8x8(sphere_like);
    let once = t.compact();
    let twice = once.compact();
    assert!(same_tree(&once, &twice));
    assert!(!same_tree(&once, &t));
}

#[test]
fn compact_keeps_colors() {
    let t = VoxelData::make_8x8x8(sphere_like);
    let c = t.compact();
    for x in 0..8 {
        for y in 0..8 {
            for z in 0..8 {
                assert_eq!(color_of(&c, 8, x, y, z), color_of(&t, 8, x, y, z));
            }
        }
    }
    assert_eq!(color_of(&t, 8, 3, 3, 3), 5);
    assert_eq!(color_of(&t, 8, 0, 0, 0), 0);
}

#[test]
fn build_places_cells() {
    let t = VoxelData::make_32x32x32(|x, y, z| VoxelData::make_leaf((x + 32 * y + z) as u8 % 7));
    assert_eq!(color_of(&t, 32, 31, 0, 5), ((31 + 5) % 7) as u8);
    assert_eq!(color_of(&t, 32, 2, 3, 4), ((2 + 96 + 4) % 7) as u8);
    let t16 = VoxelData::make_16x16x16(|x, _, _| VoxelData::make_leaf(x as u8));
    assert_eq!(color_of(&t16, 16, 9, 15, 0), 9);
    let b = VoxelData::build(4, |_, y, _| VoxelData::make_leaf(y as u8 + 1));
    assert_eq!(color_of(&b, 4, 0, 3, 2), 4);
}

#[test]
fn inside_box_gives_zero() {
    let r = cast_ray_to_box([5, 5, 5], [1, -2, 3], [0, 0, 0], [10, 10, 10]);
    assert_eq!(r.map(|t| t.num), Some(0));
    let r = cast_ray_to_box([1, 9, 1], [0, 0, -1], [0, 0, 0], [10, 10, 10]);
    assert_eq!(r.map(|t| t.num), Some(0));
}

#[test]
fn parallel_ray_outside_misses() {
    // moves along x only; y is outside the box's range
    for y in [-5, 11, 100] {
        for x in [-50, -1, 5, 20] {
            let r = cast_ray_to_box([x, y, 5], [1, 0, 0], [0, 0, 0], [10, 10, 10]);
            assert!(r.is_none());
        }
    }
}

#[test]
fn slab_entry_distance() {
    let r = cast_ray_to_box([-10, 5, 5], [2, 0, 0], [0, 0, 0], [10, 10, 10]).unwrap();
    assert_eq!(value(&r), 5.0);
    let r = cast_ray_to_box([5, 5, 30], [0, 0, -4], [0, 0, 0], [10, 10, 10]).unwrap();
    assert_eq!(value(&r), 5.0);
    // a box behind the origin is missed
    assert!(cast_ray_to_box([5, 5, 30], [0, 0, 4], [0, 0, 0], [10, 10, 10]).is_none());
    // grazing along a face, the origin on the face plane: no candidate is accepted
    assert!(cast_ray_to_box([-10, 0, 5], [1, 0, 0], [0, 0, 0], [10, 10, 10]).is_none());
}

#[test]
fn single_opaque_leaf_hit() {
    let model = unit_model([0, 0, 0, 9, 0, 0, 0, 0]);
    // cell (1, 1, 0) of side 1, world scale 4 units per voxel
    let origin = [6, 6, -20];
    let dir = [0, 0, 3];
    let hit = cast_ray_to_model(&model, [0, 0, 0], 4, origin, dir).unwrap();
    assert_eq!(hit.1, 9);
    let direct = cast_ray_to_box(origin, dir, [4, 4, 0], [4, 4, 4]).unwrap();
    assert_eq!(value(&hit.0), value(&direct));
    assert!(cast_ray_to_model(&model, [0, 0, 0], 4, [2, 2, -20], dir).is_none());
}

#[test]
fn shared_face_tie_goes_to_lower_index() {
    // cells (0,0,0) and (1,0,0) share the face x = 1 (x = 2 at two units per voxel);
    // the ray meets both cells first on the edge x = 2, z = 0
    let model = unit_model([3, 4, 0, 0, 0, 0, 0, 0]);
    for _ in 0..3 {
        let hit = cast_ray_to_model(&model, [0, 0, 0], 2, [-3, 1, -5], [1, 0, 1]).unwrap();
        assert_eq!(hit.1, 3);
        assert_eq!(value(&hit.0), 5.0);
    }
}

#[test]
fn end_to_end_scenario() {
    let model = unit_model([1, 0, 1, 0, 1, 0, 1, 0]);
    // half-voxel units: origin (0.5, 0.5, -10), direction (0, 0, 1)
    let hit = cast_ray_to_model(&model, [0, 0, 0], 2, [1, 1, -20], [0, 0, 2]).unwrap();
    assert_eq!(hit.1, 1);
    assert!((value(&hit.0) - 10.0).abs() < 1e-9);
}

#[test]
fn nearer_instance_wins() {
    let instances = vec![
        VoxelInstance { pos: [0, 0, 80], voxel: Voxel { data: unit_model([7; 8]) } },
        VoxelInstance { pos: [0, 0, 20], voxel: Voxel { data: unit_model([2; 8]) } },
    ];
    // two ray units per voxel; the origin is at the middle of cell (0, 0)
    let hit = cast_ray_to_instances(&instances, 2, [1, 1, 0], [0, 0, 1]).unwrap();
    assert_eq!(hit.1, 2);
    assert_eq!(value(&hit.0), 20.0);
    let none = cast_ray_to_instances(&instances, 2, [9, 9, 0], [0, 0, 1]);
    assert!(none.is_none());
    let empty: Vec<VoxelInstance> = Vec::new();
    assert!(cast_ray_to_instances(&empty, 2, [1, 1, 0], [0, 0, 1]).is_none());
}

#[test]
fn pixel_rays_hit_plane_corners() {
    let near = FrustumPlane {
        top_left: [-3, 2, 1],
        top_right: [3, 2, 1],
        bottom_left: [-3, -2, 1],
        bottom_right: [3, -2, 1],
    };
    let far = FrustumPlane {
        top_left: [-30, 20, 10],
        top_right: [30, 20, 10],
        bottom_left: [-30, -20, 10],
        bottom_right: [30, -20, 10],
    };
    let (w, h) = (160, 96);
    let units = ((w - 1) * (h - 1)) as i64;
    let r = pixel_ray(&near, &far, 0, 0, w, h);
    assert_eq!(r.units, units);
    assert_eq!(r.origin, [-3 * units, 2 * units, units]);
    assert_eq!(r.dir, [-27 * units, 18 * units, 9 * units]);
    let r = pixel_ray(&near, &far, w - 1, h - 1, w, h);
    assert_eq!(r.origin, [3 * units, -2 * units, units]);
    let r = pixel_ray(&near, &far, 0, h - 1, 2 * 1, h);
    assert_eq!(r.origin, [-3 * (h as i64 - 1), -2 * (h as i64 - 1), h as i64 - 1]);
}

fn xraw_bytes(w: u32, h: u32, d: u32, fill: impl Fn(u32, u32, u32) -> u8) -> Vec<u8> {
    let mut b = b"XRAW".to_vec();
    b.extend_from_slice(&[0, 0, 8, 0]);
    for v in [w, h, d, 256] {
        b.extend_from_slice(&v.to_le_bytes());
    }
    for y in 0..h {
        for x in 0..w {
            for z in 0..d {
                b.push(fill(x, y, z));
            }
        }
    }
    b
}

#[test]
fn xraw_decodes_cells() {
    let b = xraw_bytes(32, 32, 32, |x, y, z| if x == 3 && y == 5 && z == 7 { 9 } else if y < 2 { 1 } else { 0 });
    let m = load_xraw(&b).ok().unwrap();
    assert_eq!(m.size, [32, 32, 32]);
    // file colors count from 1
    assert_eq!(color_of(&m.data, 32, 3, 5, 7), 8);
    assert_eq!(color_of(&m.data, 32, 0, 1, 0), 0);
    assert_eq!(color_of(&m.data, 32, 0, 9, 0), 0);
}

#[test]
fn xraw_errors() {
    let good = xraw_bytes(32, 32, 32, |_, _, _| 1);
    let mut bad = good.clone();
    bad[0] = b'Y';
    assert!(matches!(load_xraw(&bad), Err(XrawError::BadMagic)));
    assert!(matches!(load_xraw(&good[..20].to_vec()), Err(XrawError::Truncated)));
    assert!(matches!(load_xraw(&good[..good.len() - 1].to_vec()), Err(XrawError::Truncated)));
    let small = xraw_bytes(16, 32, 32, |_, _, _| 1);
    assert!(matches!(load_xraw(&small), Err(XrawError::TooSmall)));
    assert!(matches!(load_xraw(&Vec::new()), Err(XrawError::BadMagic)));
    let m = load_xraw(&good).ok().unwrap();
    assert!(matches!(m.data, VoxelData::Leaf { color_id: 0 }));
}

#[test]
fn tile_volume_extrudes_tile() {
    let width = 64;
    let image: Vec<u8> = (0..width * 40).map(|p| (p % 251) as u8).collect();
    let m = create_voxel_model_from_2d_tile(&image, width, 16, 4);
    assert_eq!(m.size, [32, 32, 32]);
    for (i, j, k) in [(0, 0, 0), (5, 7, 31), (31, 3, 10)] {
        assert_eq!(color_of(&m.data, 32, i, j, k), image[width * (4 + 31 - k) + i + 16]);
    }
    assert_eq!(color_of(&m.data, 32, 5, 8, 3), 0);
    assert_eq!(color_of(&m.data, 32, 5, 31, 3), 0);
}

#[test]
fn sphere_volume() {
    let m = VoxelModel::make_sphere32x32x32(0, 5);
    assert_eq!(color_of(&m.data, 32, 15, 15, 15), 5);
    assert_eq!(color_of(&m.data, 32, 0, 0, 0), 0);
    assert_eq!(color_of(&m.data, 32, 0, 15, 15), 0);
    assert_eq!(color_of(&m.data, 32, 1, 15, 15), 5);
    assert_eq!(color_of(&m.data, 32, 0, 15, 8), 0);
    let hit = cast_ray_to_model(&m, [0, 0, 0], 2, [31, 31, -100], [0, 0, 1]).unwrap();
    assert_eq!(hit.1, 5);
    // cell (15, 15, 0) lies outside the sphere, cell (15, 15, 1) inside
    assert_eq!(value(&hit.0), 102.0);
}

#[test]
fn bands_tile_rows() {
    let b = row_bands(96, 8);
    assert_eq!(b, vec![(0, 12), (12, 24), (24, 36), (36, 48), (48, 60), (60, 72), (72, 84), (84, 96)]);
    let b = row_bands(10, 4);
    assert_eq!(b, vec![(0, 3), (3, 6), (6, 8), (8, 10)]);
    assert_eq!(row_bands(0, 2), vec![(0, 0), (0, 0)]);
}

#[test]
fn row_rendering() {
    // near plane at z = -5, far plane at z = 5, both spanning x in [1, 3] at y = 1:
    // every ray runs along z
    let plane = |z: i64| FrustumPlane {
        top_left: [1, 1, z],
        top_right: [3, 1, z],
        bottom_left: [1, 1, z],
        bottom_right: [3, 1, z],
    };
    let (near, far) = (plane(-5), plane(5));
    let (w, h) = (5, 2);
    let units = ((w - 1) * (h - 1)) as i64;
    // voxels two world units wide; cell (0,0,0) color 6, cell (1,0,0) color 7
    let instances = vec![VoxelInstance {
        pos: [0, 0, 0],
        voxel: Voxel { data: unit_model([6, 7, 0, 0, 0, 0, 0, 0]) },
    }];
    let mut row = vec![1u8; 5];
    render_row(&instances, 2 * units, &near, &far, 0, w, h, &mut row);
    // the middle pixel runs along the shared face x = 2 and keeps the background
    assert_eq!(row, vec![6, 6, 1, 7, 7]);
    let mut row = vec![1u8; 5];
    render_row(&Vec::new(), 2 * units, &near, &far, 1, w, h, &mut row);
    assert_eq!(row, vec![1; 5]);
}

#[test]
fn xraw_header_fields() {
    let b = xraw_bytes(33, 34, 35, |_, _, _| 0);
    let h = read_xraw_header(&b).ok().unwrap();
    assert_eq!((h.width, h.height, h.depth, h.palette_size), (33, 34, 35, 256));
    assert!(matches!(read_xraw_header(&b[..23].to_vec()), Err(XrawError::Truncated)));
    assert!(matches!(read_xraw_header(&b"XRA".to_vec()), Err(XrawError::BadMagic)));
}

#[test]
fn default_node_is_empty_leaf() {
    assert!(matches!(VoxelData::default(), VoxelData::Leaf { color_id: 0 }));
}
