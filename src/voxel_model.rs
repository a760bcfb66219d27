use vstd::prelude::*;

verus! {

/// Mathematical model of an octree: a leaf holds a palette index, a branch
/// holds its children in index order `i + 2 * j + 4 * k`.
pub enum Octree {
    Leaf(u8),
    Branch(Seq<Octree>),
}

/// An octree node. Color 0 marks a transparent cell. A branch holds eight
/// children; child `(i, j, k)` sits at index `i + 2 * j + 4 * k`
/// (x varies fastest, z slowest).
pub enum VoxelData {
    Leaf { color_id: u8 },
    Node2x2x2 { children: Vec<VoxelData> },
}

/// Flat index of octant `(i, j, k)`.
pub open spec fn octant(i: int, j: int, k: int) -> int {
    i + 2 * j + 4 * k
}

pub open spec fn is_pow2(n: nat) -> bool
    decreases n,
{
    if n <= 1 {
        n == 1
    } else {
        n % 2 == 0 && is_pow2(n / 2)
    }
}

/// Which half of a cube of side `n` holds coordinate `x` (0 or 1).
pub open spec fn half_of(n: nat, x: int) -> int {
    if x < n / 2 {
        0
    } else {
        1
    }
}

/// Coordinate `x` relative to the half of the cube that holds it.
pub open spec fn within_half(n: nat, x: int) -> int {
    if x < n / 2 {
        x
    } else {
        x - n / 2
    }
}


/// The color shared by a run of children that are all leaves of one color.
pub open spec fn uniform_color(s: Seq<Octree>) -> Option<u8> {
    if s.len() > 0 && s[0] is Leaf && forall|n: int|
        0 <= n < s.len() ==> #[trigger] s[n] == s[0] {
        Some(s[0]->Leaf_0)
    } else {
        None
    }
}

/// Bottom-up compaction: compact every child, then merge a branch whose children
/// are all leaves of one color into that leaf.
pub open spec fn compact_tree(t: Octree) -> Octree
    decreases t,
{
    match t {
        Octree::Leaf(_) => t,
        Octree::Branch(s) => match uniform_color(compact_kids(s)) {
            Some(c) => Octree::Leaf(c),
            None => Octree::Branch(compact_kids(s)),
        },
    }
}

/// Each child compacted, in order.
pub open spec fn compact_kids(s: Seq<Octree>) -> Seq<Octree>
    decreases s,
{
    Seq::new(
        s.len(),
        |n: int|
            if 0 <= n < s.len() {
                compact_tree(s[n])
            } else {
                Octree::Leaf(0)
            },
    )
}

/// Compacting twice gives what compacting once gives.
pub proof fn lemma_compact_idempotent(t: Octree)
    ensures
        compact_tree(compact_tree(t)) == compact_tree(t),
    decreases t,
{
    match t {
        Octree::Leaf(_) => {},
        Octree::Branch(s) => {
            let cs = compact_kids(s);
            assert forall|n: int| 0 <= n < s.len() implies compact_tree(#[trigger] cs[n])
                == cs[n] by {
                lemma_compact_idempotent(s[n]);
            }
            if let Some(c) = uniform_color(cs) {
                assert(compact_tree(Octree::Leaf(c)) == Octree::Leaf(c));
            } else {
                assert(compact_kids(cs) =~= cs);
            }
        },
    }
}

/// Every branch of the model has exactly eight children.
pub open spec fn tree_wf(t: Octree) -> bool
    decreases t,
{
    match t {
        Octree::Leaf(_) => true,
        Octree::Branch(s) => s.len() == 8 && forall|n: int|
            0 <= n < s.len() ==> tree_wf(#[trigger] s[n]),
    }
}

/// The color seen at unit cell `(x, y, z)` of a tree of side `n`.
pub open spec fn color_at(t: Octree, n: nat, x: int, y: int, z: int) -> u8
    decreases t,
{
    match t {
        Octree::Leaf(c) => c,
        Octree::Branch(s) => {
            let m = octant(half_of(n, x), half_of(n, y), half_of(n, z));
            if s.len() == 8 {
                color_at(s[m], n / 2, within_half(n, x), within_half(n, y), within_half(n, z))
            } else {
                0
            }
        },
    }
}

proof fn lemma_compact_color_at(t: Octree, n: nat, x: int, y: int, z: int)
    requires
        tree_wf(t),
    ensures
        color_at(compact_tree(t), n, x, y, z) == color_at(t, n, x, y, z),
    decreases t,
{
    match t {
        Octree::Leaf(_) => {},
        Octree::Branch(s) => {
            let cs = compact_kids(s);
            let m = octant(half_of(n, x), half_of(n, y), half_of(n, z));
            let (xx, yy, zz) = (within_half(n, x), within_half(n, y), within_half(n, z));
            lemma_compact_color_at(s[m], n / 2, xx, yy, zz);
            assert(cs[m] == compact_tree(s[m]));
            if let Some(c) = uniform_color(cs) {
                assert(cs[m] == cs[0]);
            }
        },
    }
}

/// The model of an exec octree node.
pub open spec fn model_of(d: VoxelData) -> Octree
    decreases d,
{
    match d {
        VoxelData::Leaf { color_id } => Octree::Leaf(color_id),
        VoxelData::Node2x2x2 { children } => Octree::Branch(
            Seq::new(
                children.len() as nat,
                |n: int|
                    if 0 <= n < children.len() {
                        model_of(children[n])
                    } else {
                        Octree::Leaf(0)
                    },
            ),
        ),
    }
}

impl View for VoxelData {
    type V = Octree;

    open spec fn view(&self) -> Octree {
        model_of(*self)
    }
}

impl VoxelData {
    /// Every branch has exactly eight children.
    pub open spec fn wf(&self) -> bool
        decreases self,
    {
        match self {
            VoxelData::Leaf { .. } => true,
            VoxelData::Node2x2x2 { children } => children.len() == 8 && forall|n: int|
                0 <= n < children.len() ==> (#[trigger] children[n]).wf(),
        }
    }

    pub open spec fn is_branch(&self) -> bool {
        self is Node2x2x2
    }

    /// The children of a branch (empty for a leaf).
    pub open spec fn kids(&self) -> Seq<VoxelData> {
        match self {
            VoxelData::Leaf { .. } => Seq::empty(),
            VoxelData::Node2x2x2 { children } => children@,
        }
    }

    /// A complete tree of side `n`: branches all the way down to cells of side 1.
    pub open spec fn perfect(&self, n: nat) -> bool
        decreases self,
    {
        if n <= 1 {
            n == 1
        } else {
            match self {
                VoxelData::Leaf { .. } => false,
                VoxelData::Node2x2x2 { children } => n % 2 == 0 && children.len() == 8
                    && forall|m: int|
                    0 <= m < children.len() ==> (#[trigger] children[m]).perfect(n / 2),
            }
        }
    }

    /// The node that covers cell `(x, y, z)` at unit size, in a tree of side `n`.
    pub open spec fn node_at(&self, n: nat, x: int, y: int, z: int) -> VoxelData
        decreases self,
    {
        if n <= 1 {
            *self
        } else {
            match self {
                VoxelData::Leaf { .. } => *self,
                VoxelData::Node2x2x2 { children } => {
                    let m = octant(half_of(n, x), half_of(n, y), half_of(n, z));
                    if 0 <= m < children.len() {
                        children[m].node_at(
                            n / 2,
                            within_half(n, x),
                            within_half(n, y),
                            within_half(n, z),
                        )
                    } else {
                        *self
                    }
                }
            }
        }
    }

    pub fn make_leaf(color_id: u8) -> (r: Self)
        ensures
            r == (VoxelData::Leaf { color_id }),
    {
        VoxelData::Leaf { color_id }
    }
}

impl Default for VoxelData {
    /// An empty (transparent) leaf.
    fn default() -> (r: Self)
        ensures
            r == (VoxelData::Leaf { color_id: 0 }),
    {
        VoxelData::make_leaf(0)
    }
}

/// Octant coordinates of the flat index `m < 8`.
pub open spec fn octant_x(m: int) -> int {
    m % 2
}

pub open spec fn octant_y(m: int) -> int {
    (m / 2) % 2
}

pub open spec fn octant_z(m: int) -> int {
    m / 4
}

proof fn lemma_octant(m: int)
    requires
        0 <= m < 8,
    ensures
        0 <= octant_x(m) < 2,
        0 <= octant_y(m) < 2,
        0 <= octant_z(m) < 2,
        octant(octant_x(m), octant_y(m), octant_z(m)) == m,
{
}

proof fn lemma_octant_inv(i: int, j: int, k: int)
    requires
        0 <= i < 2,
        0 <= j < 2,
        0 <= k < 2,
    ensures
        octant_x(octant(i, j, k)) == i,
        octant_y(octant(i, j, k)) == j,
        octant_z(octant(i, j, k)) == k,
{
}

/// Where the upper half along one axis starts, for a half of side `h`.
pub open spec fn offset(bit: int, h: int) -> int {
    if bit == 0 {
        0
    } else {
        h
    }
}

/// Every node that `foo` returns is well formed.
pub open spec fn yields_wf<F: Fn(usize, usize, usize) -> VoxelData>(foo: F) -> bool {
    forall|x: usize, y: usize, z: usize, c: VoxelData| #[trigger] foo.ensures((x, y, z), c) ==> c.wf()
}

/// `foo` accepts every cell of the cube of side `n` whose minimum corner is `(x0, y0, z0)`.
pub open spec fn samples_cube<F: Fn(usize, usize, usize) -> VoxelData>(
    foo: F,
    n: nat,
    x0: nat,
    y0: nat,
    z0: nat,
) -> bool {
    forall|x: usize, y: usize, z: usize|
        x0 <= x < x0 + n && y0 <= y < y0 + n && z0 <= z < z0 + n ==> #[trigger] foo.requires(
            (x, y, z),
        )
}

/// Every cell `(x, y, z)` of the cube of side `n` at `(x0, y0, z0)` holds what `foo`
/// returns for it.
pub open spec fn built_from<F: Fn(usize, usize, usize) -> VoxelData>(
    r: VoxelData,
    foo: F,
    n: nat,
    x0: nat,
    y0: nat,
    z0: nat,
) -> bool {
    &&& r.perfect(n)
    &&& forall|x: int, y: int, z: int|
        0 <= x < n && 0 <= y < n && 0 <= z < n ==> foo.ensures(
            ((x0 + x) as usize, (y0 + y) as usize, (z0 + z) as usize),
            #[trigger] r.node_at(n, x, y, z),
        )
}

fn build_cube<F: Fn(usize, usize, usize) -> VoxelData>(
    n: usize,
    x0: usize,
    y0: usize,
    z0: usize,
    foo: &F,
) -> (r: VoxelData)
    requires
        is_pow2(n as nat),
        x0 + n <= usize::MAX,
        y0 + n <= usize::MAX,
        z0 + n <= usize::MAX,
        samples_cube(*foo, n as nat, x0 as nat, y0 as nat, z0 as nat),
    ensures
        built_from(r, *foo, n as nat, x0 as nat, y0 as nat, z0 as nat),
        yields_wf(*foo) ==> r.wf(),
    decreases n,
{
    if n <= 1 {
        let r = foo(x0, y0, z0);
        assert(r.node_at(1, 0, 0, 0) == r);
        return r;
    }
    let h: usize = n / 2;
    let mut children: Vec<VoxelData> = Vec::new();
    let mut m: usize = 0;
    while m < 8
        invariant
            0 <= m <= 8,
            h == n / 2,
            h >= 1,
            n == 2 * h,
            is_pow2(h as nat),
            x0 + n <= usize::MAX,
            y0 + n <= usize::MAX,
            z0 + n <= usize::MAX,
            samples_cube(*foo, n as nat, x0 as nat, y0 as nat, z0 as nat),
            children.len() == m,
            yields_wf(*foo) ==> forall|p: int| 0 <= p < m ==> (#[trigger] children[p]).wf(),
            forall|p: int|
                0 <= p < m ==> built_from(
                    #[trigger] children[p],
                    *foo,
                    h as nat,
                    (x0 + offset(octant_x(p), h as int)) as nat,
                    (y0 + offset(octant_y(p), h as int)) as nat,
                    (z0 + offset(octant_z(p), h as int)) as nat,
                ),
        decreases 8 - m,
    {
        proof {
            lemma_octant(m as int);
        }
        let cx = if m % 2 == 0 { x0 } else { x0 + h };
        let cy = if (m / 2) % 2 == 0 { y0 } else { y0 + h };
        let cz = if m / 4 == 0 { z0 } else { z0 + h };
        assert(cx == x0 + offset(octant_x(m as int), h as int));
        assert(cy == y0 + offset(octant_y(m as int), h as int));
        assert(cz == z0 + offset(octant_z(m as int), h as int));
        let child = build_cube(h, cx, cy, cz, foo);
        children.push(child);
        m = m + 1;
    }
    let r = VoxelData::Node2x2x2 { children };
    assert forall|x: int, y: int, z: int|
        0 <= x < n && 0 <= y < n && 0 <= z < n implies foo.ensures(
        ((x0 + x) as usize, (y0 + y) as usize, (z0 + z) as usize),
        #[trigger] r.node_at(n as nat, x, y, z),
    ) by {
        let i = half_of(n as nat, x);
        let j = half_of(n as nat, y);
        let k = half_of(n as nat, z);
        lemma_octant_inv(i, j, k);
        let p = octant(i, j, k);
        let c = children[p];
        assert(built_from(c, *foo, h as nat, (x0 + offset(i, h as int)) as nat,
            (y0 + offset(j, h as int)) as nat, (z0 + offset(k, h as int)) as nat));
        let xx = within_half(n as nat, x);
        let yy = within_half(n as nat, y);
        let zz = within_half(n as nat, z);
        assert(c.node_at(h as nat, xx, yy, zz) == r.node_at(n as nat, x, y, z));
        assert(x0 + offset(i, h as int) + xx == x0 + x);
        assert(y0 + offset(j, h as int) + yy == y0 + y);
        assert(z0 + offset(k, h as int) + zz == z0 + z);
    }
    r
}

impl VoxelData {
    /// Builds a complete octree of side `n` (a power of two, at least 2) whose unit
    /// cell `(x, y, z)` is `foo(x, y, z)`.
    pub fn build<F: Fn(usize, usize, usize) -> VoxelData>(n: usize, foo: F) -> (r: VoxelData)
        requires
            n >= 2,
            is_pow2(n as nat),
            n <= usize::MAX / 2,
            samples_cube(foo, n as nat, 0, 0, 0),
        ensures
            r is Node2x2x2,
            built_from(r, foo, n as nat, 0, 0, 0),
            yields_wf(foo) ==> r.wf(),
    {
        build_cube(n, 0, 0, 0, &foo)
    }

    /// A complete octree of side 2 whose unit cell `(x, y, z)` is `foo(x, y, z)`.
    pub fn make_2x2x2<F: Fn(usize, usize, usize) -> VoxelData>(foo: F) -> (r: Self)
        requires
            samples_cube(foo, 2, 0, 0, 0),
        ensures
            r is Node2x2x2,
            built_from(r, foo, 2, 0, 0, 0),
            yields_wf(foo) ==> r.wf(),
    {
        assert(is_pow2(2)) by {
            reveal_with_fuel(is_pow2, 6);
        }
        Self::build(2, foo)
    }

    /// A complete octree of side 4 whose unit cell `(x, y, z)` is `foo(x, y, z)`.
    pub fn make_4x4x4<F: Fn(usize, usize, usize) -> VoxelData>(foo: F) -> (r: Self)
        requires
            samples_cube(foo, 4, 0, 0, 0),
        ensures
            r is Node2x2x2,
            built_from(r, foo, 4, 0, 0, 0),
            yields_wf(foo) ==> r.wf(),
    {
        assert(is_pow2(4)) by {
            reveal_with_fuel(is_pow2, 6);
        }
        Self::build(4, foo)
    }

    /// A complete octree of side 8 whose unit cell `(x, y, z)` is `foo(x, y, z)`.
    pub fn make_8x8x8<F: Fn(usize, usize, usize) -> VoxelData>(foo: F) -> (r: Self)
        requires
            samples_cube(foo, 8, 0, 0, 0),
        ensures
            r is Node2x2x2,
            built_from(r, foo, 8, 0, 0, 0),
            yields_wf(foo) ==> r.wf(),
    {
        assert(is_pow2(8)) by {
            reveal_with_fuel(is_pow2, 6);
        }
        Self::build(8, foo)
    }

    /// A complete octree of side 16 whose unit cell `(x, y, z)` is `foo(x, y, z)`.
    pub fn make_16x16x16<F: Fn(usize, usize, usize) -> VoxelData>(foo: F) -> (r: Self)
        requires
            samples_cube(foo, 16, 0, 0, 0),
        ensures
            r is Node2x2x2,
            built_from(r, foo, 16, 0, 0, 0),
            yields_wf(foo) ==> r.wf(),
    {
        assert(is_pow2(16)) by {
            reveal_with_fuel(is_pow2, 6);
        }
        Self::build(16, foo)
    }

    /// A complete octree of side 32 whose unit cell `(x, y, z)` is `foo(x, y, z)`.
    pub fn make_32x32x32<F: Fn(usize, usize, usize) -> VoxelData>(foo: F) -> (r: Self)
        requires
            samples_cube(foo, 32, 0, 0, 0),
        ensures
            r is Node2x2x2,
            built_from(r, foo, 32, 0, 0, 0),
            yields_wf(foo) ==> r.wf(),
    {
        assert(is_pow2(32)) by {
            reveal_with_fuel(is_pow2, 6);
        }
        Self::build(32, foo)
    }
}

impl VoxelData {
    /// The compacted copy of this tree.
    pub fn compact(&self) -> (r: VoxelData)
        requires
            self.wf(),
        ensures
            r.wf(),
            r@ == compact_tree(self@),
        decreases self,
    {
        match self {
            VoxelData::Leaf { color_id } => VoxelData::Leaf { color_id: *color_id },
            VoxelData::Node2x2x2 { children } => {
                let mut new_children: Vec<VoxelData> = Vec::new();
                let mut m: usize = 0;
                while m < children.len()
                    invariant
                        self.wf(),
                        *self == (VoxelData::Node2x2x2 { children: *children }),
                        children.len() == 8,
                        0 <= m <= 8,
                        new_children.len() == m,
                        forall|p: int|
                            0 <= p < m ==> (#[trigger] new_children[p]).wf() && new_children[p]@
                                == compact_tree(children[p]@),
                    decreases 8 - m,
                {
                    assert(children[m as int].wf());
                    let c = children[m].compact();
                    new_children.push(c);
                    m = m + 1;
                }
                let ghost cs = compact_kids(self@->Branch_0);
                assert(self@->Branch_0.len() == 8);
                let merged = VoxelData::Node2x2x2 { children: new_children };
                assert(merged@->Branch_0 =~= cs);
                let first: u8 = match &merged.kid(0) {
                    VoxelData::Leaf { color_id } => *color_id,
                    VoxelData::Node2x2x2 { .. } => {
                        return merged;
                    },
                };
                let mut p: usize = 1;
                while p < 8
                    invariant
                        1 <= p <= 8,
                        merged.wf(),
                        merged is Node2x2x2,
                        merged@->Branch_0 == cs,
                        self@ is Branch,
                        cs == compact_kids(self@->Branch_0),
                        cs[0] == Octree::Leaf(first),
                        forall|q: int| 0 <= q < p ==> #[trigger] cs[q] == cs[0],
                    decreases 8 - p,
                {
                    match merged.kid(p) {
                        VoxelData::Leaf { color_id } => {
                            if *color_id != first {
                                assert(uniform_color(cs) is None) by {
                                    assert(cs[p as int] != cs[0]);
                                }
                                return merged;
                            }
                        },
                        VoxelData::Node2x2x2 { .. } => {
                            assert(uniform_color(cs) is None) by {
                                assert(cs[p as int] != cs[0]);
                            }
                            return merged;
                        },
                    }
                    p = p + 1;
                }
                VoxelData::Leaf { color_id: first }
            },
        }
    }

    /// The model of a well-formed node is well formed.
    pub proof fn lemma_wf_model(&self)
        requires
            self.wf(),
        ensures
            tree_wf(self@),
        decreases self,
    {
        match self {
            VoxelData::Leaf { .. } => {},
            VoxelData::Node2x2x2 { children } => {
                assert forall|n: int| 0 <= n < self@->Branch_0.len() implies tree_wf(
                    #[trigger] self@->Branch_0[n],
                ) by {
                    children[n].lemma_wf_model();
                }
            },
        }
    }

    /// Compaction changes the shape of a tree, never the color seen at any cell.
    pub proof fn lemma_compact_keeps_colors(&self, n: nat, x: int, y: int, z: int)
        requires
            self.wf(),
        ensures
            color_at(compact_tree(self@), n, x, y, z) == color_at(self@, n, x, y, z),
    {
        self.lemma_wf_model();
        lemma_compact_color_at(self@, n, x, y, z);
    }

    /// Child `m` of a branch.
    fn kid(&self, m: usize) -> (r: &VoxelData)
        requires
            self.wf(),
            self is Node2x2x2,
            m < 8,
        ensures
            *r == self.kids()[m as int],
            r.wf(),
            r@ == self@->Branch_0[m as int],
    {
        match self {
            VoxelData::Node2x2x2 { children } => {
                assert(self@->Branch_0[m as int] == children[m as int]@);
                &children[m]
            },
            VoxelData::Leaf { .. } => &self,
        }
    }
}

/// A traversal policy: offered each node with its box, it updates its own state and
/// says whether to descend into the node's children.
pub trait VoxelDataVisitor: Sized {
    /// What the visitor keeps true between visits.
    spec fn inv(&self) -> bool;

    /// The visitor after being offered `data` in the box `[min_p, max_p]`, and
    /// whether to descend.
    spec fn visit_spec(&self, min_p: Seq<usize>, max_p: Seq<usize>, data: VoxelData) -> (Self, bool);

    fn visit(&mut self, min_p: &[usize; 3], max_p: &[usize; 3], data: &VoxelData) -> (r: bool)
        requires
            old(self).inv(),
            box_ok(min_p@, max_p@),
        ensures
            final(self).inv(),
            (*final(self), r) == old(self).visit_spec(min_p@, max_p@, *data),
    ;
}

/// Largest volume extent along an axis.
pub const MAX_EXTENT: usize = 16777216;

/// A box with `min_p <= max_p <= MAX_EXTENT` on each axis.
pub open spec fn box_ok(min_p: Seq<usize>, max_p: Seq<usize>) -> bool {
    &&& min_p.len() == 3
    &&& max_p.len() == 3
    &&& forall|a: int| 0 <= a < 3 ==> #[trigger] min_p[a] <= max_p[a] <= MAX_EXTENT
}

/// Lower corner of child `m` of the box `[min_p, max_p]` (midpoint bisection).
pub open spec fn child_min(min_p: Seq<usize>, max_p: Seq<usize>, m: int) -> Seq<usize> {
    seq![
        (min_p[0] + offset(octant_x(m), (max_p[0] - min_p[0]) / 2)) as usize,
        (min_p[1] + offset(octant_y(m), (max_p[1] - min_p[1]) / 2)) as usize,
        (min_p[2] + offset(octant_z(m), (max_p[2] - min_p[2]) / 2)) as usize,
    ]
}

/// Upper corner of child `m` of the box `[min_p, max_p]`.
pub open spec fn child_max(min_p: Seq<usize>, max_p: Seq<usize>, m: int) -> Seq<usize> {
    let lo = child_min(min_p, max_p, m);
    seq![
        (lo[0] + (max_p[0] - min_p[0]) / 2) as usize,
        (lo[1] + (max_p[1] - min_p[1]) / 2) as usize,
        (lo[2] + (max_p[2] - min_p[2]) / 2) as usize,
    ]
}

/// Pre-order, depth-first walk: the visitor state after walking `d` in its box.
pub open spec fn traverse_spec<T: VoxelDataVisitor>(
    d: VoxelData,
    min_p: Seq<usize>,
    max_p: Seq<usize>,
    v: T,
) -> T
    decreases d, 9nat,
{
    let (v1, go) = v.visit_spec(min_p, max_p, d);
    if go && d is Node2x2x2 {
        traverse_kids(d, min_p, max_p, v1, 8)
    } else {
        v1
    }
}

/// The visitor state after walking the first `n` children of `d`, in index order.
pub open spec fn traverse_kids<T: VoxelDataVisitor>(
    d: VoxelData,
    min_p: Seq<usize>,
    max_p: Seq<usize>,
    v: T,
    n: nat,
) -> T
    decreases d, n,
{
    if n == 0 {
        v
    } else {
        let before = traverse_kids(d, min_p, max_p, v, (n - 1) as nat);
        match d {
            VoxelData::Node2x2x2 { children } => if n - 1 < children.len() {
                traverse_spec(
                    children[n - 1],
                    child_min(min_p, max_p, n - 1),
                    child_max(min_p, max_p, n - 1),
                    before,
                )
            } else {
                before
            },
            VoxelData::Leaf { .. } => before,
        }
    }
}

/// A child's box is a valid box inside its parent's.
pub(crate) proof fn lemma_child_box(min_p: Seq<usize>, max_p: Seq<usize>, m: int)
    requires
        box_ok(min_p, max_p),
        0 <= m < 8,
    ensures
        box_ok(child_min(min_p, max_p, m), child_max(min_p, max_p, m)),
        forall|a: int|
            0 <= a < 3 ==> min_p[a] <= #[trigger] child_min(min_p, max_p, m)[a] && child_max(
                min_p,
                max_p,
                m,
            )[a] <= max_p[a],
{
    lemma_octant(m);
}

impl VoxelData {
    /// Walks this node and its descendants in pre-order, offering each to `visitor`
    /// with its box; children cover the eight octants of their parent's box.
    pub fn traverse<T: VoxelDataVisitor>(&self, min: [usize; 3], max: [usize; 3], visitor: &mut T)
        requires
            self.wf(),
            old(visitor).inv(),
            box_ok(min@, max@),
        ensures
            final(visitor).inv(),
            *final(visitor) == traverse_spec(*self, min@, max@, *old(visitor)),
        decreases self, 9nat,
    {
        if !visitor.visit(&min, &max, self) {
            return;
        }
        match self {
            VoxelData::Leaf { .. } => {},
            VoxelData::Node2x2x2 { children } => {
                let step: [usize; 3] = [
                    (max[0] - min[0]) / 2,
                    (max[1] - min[1]) / 2,
                    (max[2] - min[2]) / 2,
                ];
                let ghost v1 = *visitor;
                let mut m: usize = 0;
                while m < 8
                    invariant
                        0 <= m <= 8,
                        self.wf(),
                        *self == (VoxelData::Node2x2x2 { children: *children }),
                        children.len() == 8,
                        box_ok(min@, max@),
                        forall|a: int| 0 <= a < 3 ==> #[trigger] step[a] == (max[a] - min[a]) / 2,
                        visitor.inv(),
                        *visitor == traverse_kids(*self, min@, max@, v1, m as nat),
                    decreases 8 - m,
                {
                    proof {
                        lemma_octant(m as int);
                        lemma_child_box(min@, max@, m as int);
                    }
                    let cmin: [usize; 3] = [
                        if m % 2 == 0 { min[0] } else { min[0] + step[0] },
                        if (m / 2) % 2 == 0 { min[1] } else { min[1] + step[1] },
                        if m / 4 == 0 { min[2] } else { min[2] + step[2] },
                    ];
                    let cmax: [usize; 3] = [cmin[0] + step[0], cmin[1] + step[1], cmin[2] + step[2]];
                    assert(cmin@ =~= child_min(min@, max@, m as int));
                    assert(cmax@ =~= child_max(min@, max@, m as int));
                    assert(children[m as int].wf());
                    children[m].traverse(cmin, cmax, visitor);
                    m = m + 1;
                }
            },
        }
    }
}

/// Color of cell `(x, y, z)` of the sphere volume: `opaque_color` within distance
/// 15.5 of the center `(15.5, 15.5, 15.5)`, `transparent_color` outside.
pub open spec fn sphere_color(transparent_color: u8, opaque_color: u8, x: int, y: int, z: int) -> u8 {
    let (a, b, c) = (2 * x - 31, 2 * y - 31, 2 * z - 31);
    if a * a + b * b + c * c <= 961 {
        opaque_color
    } else {
        transparent_color
    }
}

/// The corner every volume starts at.
pub open spec fn zero3() -> Seq<usize> {
    seq![0usize, 0usize, 0usize]
}

/// A voxel volume: the extent of the grid it was built from, and its octree.
pub struct VoxelModel {
    pub size: [usize; 3],
    pub data: VoxelData,
}

impl VoxelModel {
    pub open spec fn wf(&self) -> bool {
        &&& self.data.wf()
        &&& box_ok(zero3(), self.size@)
    }

    /// Walks the whole volume, starting with the box `[0, size]`.
    pub fn traverse<T: VoxelDataVisitor>(&self, visitor: &mut T)
        requires
            self.wf(),
            old(visitor).inv(),
        ensures
            final(visitor).inv(),
            *final(visitor) == traverse_spec(self.data, zero3(), self.size@, *old(visitor)),
    {
        let origin: [usize; 3] = [0, 0, 0];
        assert(origin@ =~= zero3());
        self.data.traverse(origin, self.size, visitor)
    }

    /// The compacted 32-cell sphere.
    pub fn make_sphere32x32x32(transparent_color: u8, opaque_color: u8) -> (r: Self)
        ensures
            r.wf(),
            r.size@ == seq![32usize, 32usize, 32usize],
            exists|t: VoxelData|
                #[trigger] t.perfect(32) && r.data@ == compact_tree(t@) && forall|x: int, y: int, z: int|
                    0 <= x < 32 && 0 <= y < 32 && 0 <= z < 32 ==> #[trigger] t.node_at(32, x, y, z)
                        == (VoxelData::Leaf {
                        color_id: sphere_color(transparent_color, opaque_color, x, y, z),
                    }),
    {
        let sample = |x: usize, y: usize, z: usize| -> (c: VoxelData)
            requires
                x < 32 && y < 32 && z < 32,
            ensures
                c == (VoxelData::Leaf {
                    color_id: sphere_color(transparent_color, opaque_color, x as int, y as int, z as int),
                }),
            {
                let (a, b, c) = (2 * (x as i64) - 31, 2 * (y as i64) - 31, 2 * (z as i64) - 31);
                assert(-31 <= a <= 31 && -31 <= b <= 31 && -31 <= c <= 31);
                proof {
                    assert(0 <= a * a <= 961 && 0 <= b * b <= 961 && 0 <= c * c <= 961) by (nonlinear_arith)
                        requires
                            -31 <= a <= 31, -31 <= b <= 31, -31 <= c <= 31,
                    ;
                }
                let color = if a * a + b * b + c * c <= 961 { opaque_color } else { transparent_color };
                VoxelData::make_leaf(color)
            };
        let tree = VoxelData::make_32x32x32(sample);
        let data = tree.compact();
        let r = VoxelModel { size: [32, 32, 32], data };
        assert(r.size@ =~= seq![32usize, 32usize, 32usize]);
        r
    }
}

} // verus!
