use vstd::prelude::*;
use crate::voxel_model::{compact_tree, VoxelData, VoxelModel};

verus! {

/// Why a volumetric asset could not be decoded.
pub enum XrawError {
    /// The first four bytes are not `XRAW`.
    BadMagic,
    /// The buffer ends before the header or the color data does.
    Truncated,
    /// A dimension is below the 32 cells the volume is built from.
    TooSmall,
}

/// The fixed fields of an `XRAW` header.
pub struct XrawHeader {
    pub width: u32,
    pub height: u32,
    pub depth: u32,
    pub palette_size: u32,
}

/// Reads the header: magic, four bytes of unknown use, then width, height, depth
/// and palette size, each a little-endian `u32`.
pub fn read_xraw_header(bytes: &Vec<u8>) -> (r: Result<XrawHeader, XrawError>)
    ensures
        !has_magic(bytes@) <==> (r matches Err(XrawError::BadMagic)),
        has_magic(bytes@) && bytes.len() < 24 <==> (r matches Err(XrawError::Truncated)),
        r is Ok <==> has_magic(bytes@) && bytes.len() >= 24,
        r matches Ok(h) ==> h.width == le_u32(bytes@, 8) && h.height == le_u32(bytes@, 12)
            && h.depth == le_u32(bytes@, 16) && h.palette_size == le_u32(bytes@, 20),
{
    if bytes.len() < 4 || bytes[0] != 88 || bytes[1] != 82 || bytes[2] != 65 || bytes[3] != 87 {
        return Err(XrawError::BadMagic);
    }
    if bytes.len() < XRAW_HEADER {
        return Err(XrawError::Truncated);
    }
    Ok(XrawHeader {
        width: read_u32(bytes, 8),
        height: read_u32(bytes, 12),
        depth: read_u32(bytes, 16),
        palette_size: read_u32(bytes, 20),
    })
}

/// Size of the header: magic, four unknown bytes, three dimensions, palette size.
pub const XRAW_HEADER: usize = 24;

/// Little-endian 32-bit value at offset `at`.
pub open spec fn le_u32(b: Seq<u8>, at: int) -> int {
    b[at] + 256 * b[at + 1] + 65536 * b[at + 2] + 16777216 * b[at + 3]
}

pub open spec fn has_magic(b: Seq<u8>) -> bool {
    b.len() >= 4 && b[0] == 88 && b[1] == 82 && b[2] == 65 && b[3] == 87
}

/// Offset of the color byte of cell `(x, y, z)`: rows of height, then width, then
/// depth.
pub open spec fn xraw_offset(width: int, depth: int, x: int, y: int, z: int) -> int {
    24 + (y * width + x) * depth + z
}

/// Palette index stored for a color byte: the file counts from 1, 0 stays empty.
pub open spec fn xraw_color(c: u8) -> u8 {
    if c > 0 {
        (c - 1) as u8
    } else {
        0
    }
}

/// `t` is the complete tree of side 32 whose cell `(x, y, z)` is a leaf holding the
/// color the buffer stores for it.
pub open spec fn xraw_tree(b: Seq<u8>, t: VoxelData) -> bool {
    let (w, d) = (le_u32(b, 8), le_u32(b, 16));
    &&& t.perfect(32)
    &&& forall|x: int, y: int, z: int|
        0 <= x < 32 && 0 <= y < 32 && 0 <= z < 32 ==> #[trigger] t.node_at(32, x, y, z) == (
        VoxelData::Leaf { color_id: xraw_color(b[xraw_offset(w, d, x, y, z)]) })
}

fn read_u32(b: &Vec<u8>, at: usize) -> (r: u32)
    requires
        at + 4 <= b.len(),
    ensures
        r == le_u32(b@, at as int),
{
    (b[at] as u32) + 256 * (b[at + 1] as u32) + 65536 * (b[at + 2] as u32) + 16777216 * (b[at
        + 3] as u32)
}

/// Decodes an `XRAW` volume into a compacted octree of side 32.
pub fn load_xraw(bytes: &Vec<u8>) -> (r: Result<VoxelModel, XrawError>)
    ensures
        !has_magic(bytes@) <==> (r matches Err(XrawError::BadMagic)),
        has_magic(bytes@) && bytes.len() < 24 ==> (r matches Err(XrawError::Truncated)),
        has_magic(bytes@) && bytes.len() >= 24 ==> {
            let (w, h, d) = (le_u32(bytes@, 8), le_u32(bytes@, 12), le_u32(bytes@, 16));
            &&& (w < 32 || h < 32 || d < 32) <==> (r matches Err(XrawError::TooSmall))
            &&& (w >= 32 && h >= 32 && d >= 32 && bytes.len() < 24 + w * h * d) <==> (
            r matches Err(XrawError::Truncated))
            &&& r matches Ok(m) ==> {
                &&& m.size@ == seq![w as usize, h as usize, d as usize]
                &&& m.data.wf()
                &&& exists|t: VoxelData| #[trigger] xraw_tree(bytes@, t) && m.data@ == compact_tree(t@)
            }
            &&& (w >= 32 && h >= 32 && d >= 32 && bytes.len() >= 24 + w * h * d) ==> r is Ok
        },
{
    let header = match read_xraw_header(bytes) {
        Ok(h) => h,
        Err(e) => {
            return Err(e);
        },
    };
    let (width, height, depth) = (header.width, header.height, header.depth);
    if width < 32 || height < 32 || depth < 32 {
        return Err(XrawError::TooSmall);
    }
    proof {
        let (a, b, c) = (width as int, height as int, depth as int);
        assert(a * b <= 0xffff_ffff * 0xffff_ffff) by (nonlinear_arith)
            requires
                0 <= a <= 0xffff_ffff,
                0 <= b <= 0xffff_ffff,
        ;
        assert(a * b * c <= 0xffff_ffff * 0xffff_ffff * 0xffff_ffff) by (nonlinear_arith)
            requires
                0 <= a * b <= 0xffff_ffff * 0xffff_ffff,
                0 <= c <= 0xffff_ffff,
        ;
    }
    let need: u128 = 24u128 + (width as u128) * (height as u128) * (depth as u128);
    if (bytes.len() as u128) < need {
        return Err(XrawError::Truncated);
    }
    let (w, d) = (width as usize, depth as usize);
    let height = height as usize;
    let sample = |x: usize, y: usize, z: usize| -> (c: VoxelData)
        requires
            x < 32 && y < 32 && z < 32,
            w >= 32 && d >= 32 && height >= 32,
            bytes.len() >= 24 + w * height * d,
        ensures
            c == (VoxelData::Leaf { color_id: xraw_color(bytes@[xraw_offset(w as int, d as int, x as int, y as int, z as int)]) }),
        {
            proof {
                assert((y * w + x) * d + z < w * 32 * d) by (nonlinear_arith)
                    requires
                        x < 32, y < 32, z < 32, w >= 32, d >= 32,
                ;
                assert(w * 32 * d <= w * height * d) by (nonlinear_arith)
                    requires
                        height >= 32, w >= 0, d >= 0,
                ;
                assert(y * w <= y * w + x <= (y * w + x) * d) by (nonlinear_arith)
                    requires
                        d >= 1, x >= 0, y >= 0, w >= 0,
                ;
            }
            let c = bytes[24 + (y * w + x) * d + z];
            VoxelData::make_leaf(if c > 0 { c - 1 } else { c })
        };
    let tree = VoxelData::make_32x32x32(sample);
    let data = tree.compact();
    proof {
        assert(xraw_tree(bytes@, tree));
    }
    Ok(VoxelModel { size: [w, height, d], data })
}

/// Color of cell `(i, j, k)` of a tile volume: the bottom eight layers repeat the
/// 32 by 32 tile at `(x, y)` of an image `width` pixels wide (row `y + 31 - k`,
/// column `x + i`); the layers above are empty.
pub open spec fn tile_color(image: Seq<u8>, width: int, x: int, y: int, i: int, j: int, k: int) -> u8 {
    if j < 8 {
        image[width * (y + 31 - k) + i + x]
    } else {
        0
    }
}

/// Builds the compacted volume of side 32 that extrudes one tile of a paletted image.
pub fn create_voxel_model_from_2d_tile(image: &Vec<u8>, width: usize, x: usize, y: usize) -> (r:
    VoxelModel)
    requires
        x + 32 <= width,
        (y + 32) * width <= image.len(),
    ensures
        r.size@ == seq![32usize, 32usize, 32usize],
        r.data.wf(),
        exists|t: VoxelData|
            #[trigger] t.perfect(32) && r.data@ == compact_tree(t@) && forall|i: int, j: int, k: int|
                0 <= i < 32 && 0 <= j < 32 && 0 <= k < 32 ==> #[trigger] t.node_at(32, i, j, k) == (
                VoxelData::Leaf { color_id: tile_color(image@, width as int, x as int, y as int, i, j, k) }),
{
    let sample = |i: usize, j: usize, k: usize| -> (c: VoxelData)
        requires
            i < 32 && j < 32 && k < 32,
            x + 32 <= width,
            (y + 32) * width <= image.len(),
        ensures
            c == (VoxelData::Leaf {
                color_id: tile_color(image@, width as int, x as int, y as int, i as int, j as int, k as int),
            }),
        {
            if j >= 8 {
                return VoxelData::make_leaf(0);
            }
            proof {
                assert(y + 32 <= (y + 32) * width) by (nonlinear_arith)
                    requires
                        width >= 32,
                ;
                assert(width * (y + 31 - k) <= (y + 32) * width) by (nonlinear_arith)
                    requires
                        k < 32,
                ;
                assert(width * (y + 31 - k) + i + x < (y + 32) * width) by (nonlinear_arith)
                    requires
                        i < 32, k < 32, x + 32 <= width,
                ;
            }
            VoxelData::make_leaf(image[width * (y + 31 - k) + i + x])
        };
    let tree = VoxelData::make_32x32x32(sample);
    let data = tree.compact();
    VoxelModel { size: [32, 32, 32], data }
}

} // verus!
