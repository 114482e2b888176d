//! Surface-area-heuristic bounding-volume-hierarchy construction.
//!
//! [`BVHTree::append`] builds a BVH over a half-open range of a primitive
//! slice, reordering the slice in place so that every leaf covers a
//! contiguous index range, and appends the nodes to a flat array whose inner
//! nodes link children by index. Well-formedness ([`wf_all`]) guarantees for
//! every node that its bounding box encloses every primitive it covers, that
//! the two children of an inner node split the parent's range into two
//! adjacent non-empty halves, and that leaf ranges never overlap.

use vstd::prelude::*;

verus! {

use crate::geom::{
    Vec3i, COORD_LIMIT, lemma_mul_magnitude, lemma_trunc_div_ordered, spec_trunc_div, trunc_div,
};
use vstd::arithmetic::div_mod::lemma_div_multiples_vanish;
use vstd::seq_lib::{group_to_multiset_ensures, lemma_multiset_commutative};

/// Deepest node the builder will split; beyond it ranges stay leaves.
pub const MAX_DEPTH: u32 = 32;

/// Number of bins per axis used by the binned SAH search.
pub const N_BINS: u32 = 16;

/// Anything the builder can put in a BVH: an axis-aligned bounding box and a
/// representative center point, all in the same fixed-point coordinate frame.
pub trait BVHPrimitive: Sized + Copy {
    /// Bounding-box minimum.
    spec fn s_min(&self) -> Vec3i;

    /// Bounding-box maximum.
    spec fn s_max(&self) -> Vec3i;

    /// Center used for partitioning.
    spec fn s_center(&self) -> Vec3i;

    fn min(&self) -> (r: Vec3i)
        ensures
            r == self.s_min(),
    ;

    fn max(&self) -> (r: Vec3i)
        ensures
            r == self.s_max(),
    ;

    fn center(&self) -> (r: Vec3i)
        ensures
            r == self.s_center(),
    ;
}

/// A primitive the builder can work with: a non-degenerate box within the
/// coordinate limit, with the center inside the box.
pub open spec fn prim_ok<T: BVHPrimitive>(p: T) -> bool {
    &&& p.s_min().within(COORD_LIMIT as int)
    &&& p.s_max().within(COORD_LIMIT as int)
    &&& p.s_min().le(p.s_max())
    &&& p.s_min().le(p.s_center())
    &&& p.s_center().le(p.s_max())
}

/// The node's box encloses the primitive's box.
pub open spec fn enclosed<T: BVHPrimitive>(p: T, n: BVHNode) -> bool {
    n.min.le(p.s_min()) && p.s_max().le(n.max)
}

/// One node of the flat BVH array; exactly the GPU wire layout, with
/// fixed-point bounds. `end == 0` marks an inner node whose children sit at
/// indices `start` and `start + 1`; otherwise the node is a leaf covering the
/// half-open primitive range `[start, end)`.
#[derive(Clone, Copy, PartialEq, Eq, Structural, Debug)]
pub struct BVHNode {
    pub min: Vec3i,
    pub start: u32,
    pub max: Vec3i,
    pub end: u32,
}

impl BVHNode {
    pub open spec fn spec_is_leaf(self) -> bool {
        self.end > 0
    }

    /// The bounds are within the coordinate limit and ordered.
    pub open spec fn box_ok(self) -> bool {
        &&& self.min.within(COORD_LIMIT as int)
        &&& self.max.within(COORD_LIMIT as int)
        &&& self.min.le(self.max)
    }

    /// The node's box contains the other node's box.
    pub open spec fn box_contains(self, o: BVHNode) -> bool {
        self.min.le(o.min) && o.max.le(self.max)
    }

    pub fn is_leaf(&self) -> (r: bool)
        ensures
            r == self.spec_is_leaf(),
    {
        self.end > 0
    }
}

/// Exact bounding box of `prims[lo..hi]`: the componentwise minimum and
/// maximum over the primitives' boxes.
pub open spec fn range_aabb<T: BVHPrimitive>(prims: Seq<T>, lo: int, hi: int) -> (Vec3i, Vec3i)
    decreases hi - lo,
{
    if hi - lo <= 1 {
        (prims[lo].s_min(), prims[lo].s_max())
    } else {
        let prev = range_aabb(prims, lo, hi - 1);
        (prev.0.spec_min(prims[hi - 1].s_min()), prev.1.spec_max(prims[hi - 1].s_max()))
    }
}

/// SAH surrogate area: for box extent `(dx, dy, dz)`, the value
/// `dx*dy + dx*dz + dy*dz` (half the surface area).
pub open spec fn spec_area(mn: Vec3i, mx: Vec3i) -> int {
    let dx = mx.axis(0) - mn.axis(0);
    let dy = mx.axis(1) - mn.axis(1);
    let dz = mx.axis(2) - mn.axis(2);
    dx * dy + dx * dz + dy * dz
}

/// SAH cost of covering `count` primitives with the box `[mn, mx]`.
pub open spec fn spec_box_cost(mn: Vec3i, mx: Vec3i, count: int) -> int {
    count * spec_area(mn, mx)
}

/// Bound used to keep exec cost arithmetic inside `u128`.
pub proof fn lemma_box_cost_bound(mn: Vec3i, mx: Vec3i, count: int)
    requires
        mn.within(COORD_LIMIT as int),
        mx.within(COORD_LIMIT as int),
        mn.le(mx),
        0 <= count <= 0x10_0000_0000,
    ensures
        0 <= spec_area(mn, mx) <= 0xC_0000_0000_0000_0000_0000,
        0 <= spec_box_cost(mn, mx, count) <= 0x4000_0000_0000_0000_0000_0000_0000_0000,
{
    let dx = mx.axis(0) - mn.axis(0);
    let dy = mx.axis(1) - mn.axis(1);
    let dz = mx.axis(2) - mn.axis(2);
    lemma_mul_magnitude(dx, dy, 0x200_0000_0000, 0x200_0000_0000);
    lemma_mul_magnitude(dx, dz, 0x200_0000_0000, 0x200_0000_0000);
    lemma_mul_magnitude(dy, dz, 0x200_0000_0000, 0x200_0000_0000);
    assert(dx * dy >= 0) by (nonlinear_arith)
        requires
            dx >= 0,
            dy >= 0,
    ;
    assert(dx * dz >= 0) by (nonlinear_arith)
        requires
            dx >= 0,
            dz >= 0,
    ;
    assert(dy * dz >= 0) by (nonlinear_arith)
        requires
            dy >= 0,
            dz >= 0,
    ;
    lemma_mul_magnitude(count, spec_area(mn, mx), 0x10_0000_0000, 0xC_0000_0000_0000_0000_0000);
    assert(spec_box_cost(mn, mx, count) >= 0) by (nonlinear_arith)
        requires
            count >= 0,
            spec_area(mn, mx) >= 0,
    ;
}

/// SAH cost of a box, computed exactly in `u128`.
fn box_cost(mn: Vec3i, mx: Vec3i, count: u64) -> (c: u128)
    requires
        mn.within(COORD_LIMIT as int),
        mx.within(COORD_LIMIT as int),
        mn.le(mx),
        count <= 0x10_0000_0000,
    ensures
        c as int == spec_box_cost(mn, mx, count as int),
        c <= 0x4000_0000_0000_0000_0000_0000_0000_0000,
{
    proof {
        lemma_box_cost_bound(mn, mx, count as int);
    }
    let dx = (mx.x - mn.x) as u128;
    let dy = (mx.y - mn.y) as u128;
    let dz = (mx.z - mn.z) as u128;
    let area = dx * dy + dx * dz + dy * dz;
    (count as u128) * area
}

/// Scratch accumulator for a set of primitives: their common bounding box and
/// how many there are. `count == 0` means no box yet.
#[derive(Clone, Copy, PartialEq, Eq, Structural, Debug)]
pub struct Bin {
    pub min: Vec3i,
    pub max: Vec3i,
    pub count: u64,
}

/// A non-empty bin carries a well-formed box.
pub open spec fn bin_ok(b: Bin) -> bool {
    b.count > 0 ==> {
        &&& b.min.within(COORD_LIMIT as int)
        &&& b.max.within(COORD_LIMIT as int)
        &&& b.min.le(b.max)
    }
}

/// The bin's box encloses the primitive's box.
pub open spec fn bin_encloses<T: BVHPrimitive>(b: Bin, p: T) -> bool {
    b.min.le(p.s_min()) && p.s_max().le(b.max)
}

/// SAH cost of a bin; an empty bin costs nothing.
pub open spec fn spec_bin_cost(b: Bin) -> int {
    if b.count == 0 {
        0
    } else {
        spec_box_cost(b.min, b.max, b.count as int)
    }
}

impl Bin {
    fn empty() -> (r: Bin)
        ensures
            r.count == 0,
            bin_ok(r),
            r == spec_bin_empty(),
    {
        Bin { min: Vec3i { x: 0, y: 0, z: 0 }, max: Vec3i { x: 0, y: 0, z: 0 }, count: 0 }
    }

    /// Grow the bin by one primitive.
    fn absorb<T: BVHPrimitive>(&mut self, p: &T)
        requires
            prim_ok(*p),
            bin_ok(*old(self)),
            old(self).count < u64::MAX,
        ensures
            final(self).count == old(self).count + 1,
            bin_ok(*final(self)),
            final(self).min == if old(self).count == 0 {
                p.s_min()
            } else {
                old(self).min.spec_min(p.s_min())
            },
            final(self).max == if old(self).count == 0 {
                p.s_max()
            } else {
                old(self).max.spec_max(p.s_max())
            },
            bin_encloses(*final(self), *p),
            old(self).count > 0 ==> final(self).min.le(old(self).min) && old(self).max.le(
                final(self).max,
            ),
    {
        if self.count == 0 {
            self.min = p.min();
            self.max = p.max();
        } else {
            self.min = self.min.component_min(p.min());
            self.max = self.max.component_max(p.max());
        }
        self.count = self.count + 1;
    }

    /// Merge another bin into this one.
    fn absorb_bin(&mut self, other: &Bin)
        requires
            bin_ok(*old(self)),
            bin_ok(*other),
            old(self).count + other.count <= u64::MAX,
        ensures
            final(self).count == old(self).count + other.count,
            bin_ok(*final(self)),
            other.count == 0 ==> final(self).min == old(self).min && final(self).max == old(self).max,
            old(self).count == 0 && other.count > 0 ==> final(self).min == other.min && final(self).max == other.max,
            old(self).count > 0 && other.count > 0 ==> final(self).min == old(self).min.spec_min(
                other.min,
            ) && final(self).max == old(self).max.spec_max(other.max),
            old(self).count > 0 ==> final(self).min.le(old(self).min) && old(self).max.le(
                final(self).max,
            ),
            other.count > 0 ==> final(self).min.le(other.min) && other.max.le(final(self).max),
    {
        if other.count == 0 {
        } else if self.count == 0 {
            self.min = other.min;
            self.max = other.max;
        } else {
            self.min = self.min.component_min(other.min);
            self.max = self.max.component_max(other.max);
        }
        self.count = self.count + other.count;
    }

    /// SAH cost of the bin.
    fn cost(&self) -> (c: u128)
        requires
            bin_ok(*self),
            self.count <= 0x10_0000_0000,
        ensures
            c as int == spec_bin_cost(*self),
            c <= 0x4000_0000_0000_0000_0000_0000_0000_0000,
    {
        if self.count == 0 {
            0
        } else {
            box_cost(self.min, self.max, self.count)
        }
    }
}

/// Build a leaf node over `prims[lo..hi]` with the range's exact bounding
/// box.
fn new_leaf<T: BVHPrimitive>(prims: &Vec<T>, lo: u32, hi: u32) -> (n: BVHNode)
    requires
        lo < hi <= prims.len(),
        forall|j: int| lo <= j < hi ==> prim_ok(#[trigger] prims@[j]),
    ensures
        n.start == lo,
        n.end == hi,
        n.spec_is_leaf(),
        n.box_ok(),
        (n.min, n.max) == range_aabb(prims@, lo as int, hi as int),
        forall|j: int| lo <= j < hi ==> enclosed(#[trigger] prims@[j], n),
{
    let first = prims[lo as usize];
    let mut mn = first.min();
    let mut mx = first.max();
    let mut i: u32 = lo + 1;
    while i < hi
        invariant
            lo < i <= hi <= prims.len(),
            forall|j: int| lo <= j < hi ==> prim_ok(#[trigger] prims@[j]),
            (mn, mx) == range_aabb(prims@, lo as int, i as int),
            mn.within(COORD_LIMIT as int),
            mx.within(COORD_LIMIT as int),
            mn.le(mx),
            forall|j: int|
                lo <= j < i ==> mn.le(#[trigger] prims@[j].s_min()) && prims@[j].s_max().le(mx),
        decreases hi - i,
    {
        let p = prims[i as usize];
        mn = mn.component_min(p.min());
        mx = mx.component_max(p.max());
        i = i + 1;
    }
    BVHNode { min: mn, start: lo, max: mx, end: hi }
}

/// A triangle as the BLAS sees it: precomputed bounds and centroid, plus the
/// three vertex indices it was read from.
#[derive(Clone, Copy, Debug)]
pub struct Triangle {
    pub center: Vec3i,
    pub min: Vec3i,
    pub max: Vec3i,
    pub indices: [u32; 3],
}

/// Componentwise minimum of three points.
pub open spec fn spec_tri_min(a: Vec3i, b: Vec3i, c: Vec3i) -> Vec3i {
    a.spec_min(b).spec_min(c)
}

/// Componentwise maximum of three points.
pub open spec fn spec_tri_max(a: Vec3i, b: Vec3i, c: Vec3i) -> Vec3i {
    a.spec_max(b).spec_max(c)
}

/// Centroid of three points, each axis truncated toward zero.
pub open spec fn spec_tri_center(a: Vec3i, b: Vec3i, c: Vec3i) -> Vec3i {
    Vec3i {
        x: spec_trunc_div(a.x + b.x + c.x, 3) as i64,
        y: spec_trunc_div(a.y + b.y + c.y, 3) as i64,
        z: spec_trunc_div(a.z + b.z + c.z, 3) as i64,
    }
}

/// The truncated average of three values within `[mn, mx]` stays in
/// `[mn, mx]`.
proof fn lemma_avg3_between(mn: int, mx: int, a: int, b: int, c: int)
    requires
        mn <= a <= mx,
        mn <= b <= mx,
        mn <= c <= mx,
    ensures
        mn <= spec_trunc_div(a + b + c, 3) <= mx,
{
    lemma_div_multiples_vanish(mn, 3);
    lemma_div_multiples_vanish(-mn, 3);
    lemma_div_multiples_vanish(mx, 3);
    lemma_div_multiples_vanish(-mx, 3);
    assert(spec_trunc_div(3 * mn, 3) == mn);
    assert(spec_trunc_div(3 * mx, 3) == mx);
    lemma_trunc_div_ordered(3 * mn, a + b + c, 3);
    lemma_trunc_div_ordered(a + b + c, 3 * mx, 3);
}

impl BVHPrimitive for Triangle {
    open spec fn s_min(&self) -> Vec3i {
        self.min
    }

    open spec fn s_max(&self) -> Vec3i {
        self.max
    }

    open spec fn s_center(&self) -> Vec3i {
        self.center
    }

    fn min(&self) -> (r: Vec3i) {
        self.min
    }

    fn max(&self) -> (r: Vec3i) {
        self.max
    }

    fn center(&self) -> (r: Vec3i) {
        self.center
    }
}

/// The triangle read from triplet `i` of an index buffer: the three
/// indexed positions' bounds and centroid, and the triplet itself.
pub open spec fn spec_cache_triangle(positions: Seq<Vec3i>, indices: Seq<u32>, i: int) -> Triangle {
    let a = positions[indices[3 * i] as int];
    let b = positions[indices[3 * i + 1] as int];
    let c = positions[indices[3 * i + 2] as int];
    Triangle {
        center: spec_tri_center(a, b, c),
        min: spec_tri_min(a, b, c),
        max: spec_tri_max(a, b, c),
        indices: [indices[3 * i], indices[3 * i + 1], indices[3 * i + 2]],
    }
}

/// The whole triangle cache of an index buffer, triplet by triplet.
pub open spec fn spec_triangle_cache(positions: Seq<Vec3i>, indices: Seq<u32>) -> Seq<Triangle> {
    Seq::new(indices.len() / 3, |i: int| spec_cache_triangle(positions, indices, i))
}

/// Precompute per-triangle bounds, centroid and vertex indices from a vertex
/// position array and an index buffer read three entries at a time. A
/// trailing partial triple is ignored.
#[verifier::rlimit(60)]
pub fn build_triangle_cache(vertices: &Vec<Vec3i>, indices: &Vec<u32>) -> (r: Vec<Triangle>)
    requires
        forall|k: int| 0 <= k < indices@.len() ==> (#[trigger] indices@[k]) < vertices@.len(),
        forall|v: int|
            0 <= v < vertices@.len() ==> (#[trigger] vertices@[v]).within(COORD_LIMIT as int),
    ensures
        r@ == spec_triangle_cache(vertices@, indices@),
        r@.len() == indices@.len() / 3,
        forall|i: int|
            0 <= i < r@.len() ==> {
                let t = #[trigger] r@[i];
                let a = vertices@[indices@[3 * i] as int];
                let b = vertices@[indices@[3 * i + 1] as int];
                let c = vertices@[indices@[3 * i + 2] as int];
                &&& t.indices@ =~= seq![indices@[3 * i], indices@[3 * i + 1], indices@[3 * i + 2]]
                &&& t.min == spec_tri_min(a, b, c)
                &&& t.max == spec_tri_max(a, b, c)
                &&& t.center == spec_tri_center(a, b, c)
                &&& prim_ok(t)
            },
{
    let ilen = indices.len();
    let count = ilen / 3;
    proof {
        vstd::arithmetic::div_mod::lemma_fundamental_div_mod(ilen as int, 3);
        vstd::arithmetic::div_mod::lemma_mod_bound(ilen as int, 3);
    }
    let mut triangles: Vec<Triangle> = Vec::new();
    let mut i: usize = 0;
    while i < count
        invariant
            0 <= i <= count,
            ilen == indices@.len(),
            count == indices@.len() / 3,
            count * 3 <= indices@.len() <= usize::MAX,
            forall|k: int| 0 <= k < indices@.len() ==> (#[trigger] indices@[k]) < vertices@.len(),
            forall|v: int|
                0 <= v < vertices@.len() ==> (#[trigger] vertices@[v]).within(COORD_LIMIT as int),
            triangles@.len() == i,
            forall|k: int|
                0 <= k < i ==> {
                    let t = #[trigger] triangles@[k];
                    let a = vertices@[indices@[3 * k] as int];
                    let b = vertices@[indices@[3 * k + 1] as int];
                    let c = vertices@[indices@[3 * k + 2] as int];
                    &&& t.indices@ =~= seq![
                        indices@[3 * k],
                        indices@[3 * k + 1],
                        indices@[3 * k + 2],
                    ]
                    &&& t.min == spec_tri_min(a, b, c)
                    &&& t.max == spec_tri_max(a, b, c)
                    &&& t.center == spec_tri_center(a, b, c)
                    &&& prim_ok(t)
                },
        decreases count - i,
    {
        let i0 = indices[3 * i];
        let i1 = indices[3 * i + 1];
        let i2 = indices[3 * i + 2];
        let a = vertices[i0 as usize];
        let b = vertices[i1 as usize];
        let c = vertices[i2 as usize];
        let mn = a.component_min(b).component_min(c);
        let mx = a.component_max(b).component_max(c);
        let center = Vec3i {
            x: trunc_div(a.x + b.x + c.x, 3),
            y: trunc_div(a.y + b.y + c.y, 3),
            z: trunc_div(a.z + b.z + c.z, 3),
        };
        proof {
            lemma_avg3_between(mn.x as int, mx.x as int, a.x as int, b.x as int, c.x as int);
            lemma_avg3_between(mn.y as int, mx.y as int, a.y as int, b.y as int, c.y as int);
            lemma_avg3_between(mn.z as int, mx.z as int, a.z as int, b.z as int, c.z as int);
        }
        let t = Triangle { center, min: mn, max: mx, indices: [i0, i1, i2] };
        triangles.push(t);
        i = i + 1;
    }
    proof {
        broadcast use vstd::array::axiom_array_ext_equal;

        assert forall|k: int| 0 <= k < triangles@.len() implies #[trigger] triangles@[k]
            == spec_cache_triangle(vertices@, indices@, k) by {
            assert(triangles@[k].indices =~= spec_cache_triangle(vertices@, indices@, k).indices);
        }
        assert(triangles@ =~= spec_triangle_cache(vertices@, indices@));
    }
    triangles
}

/// Write the (reordered) triangles' vertex indices back into the index
/// buffer: triplet `i` of the buffer becomes `triangles[i].indices`.
pub fn flatten_triangle_list(triangles: &Vec<Triangle>, indices: &mut Vec<u32>)
    requires
        triangles@.len() * 3 <= old(indices)@.len(),
    ensures
        final(indices)@.len() == old(indices)@.len(),
        forall|i: int|
            0 <= i < triangles@.len() ==> {
                let t = #[trigger] triangles@[i];
                &&& final(indices)@[3 * i] == t.indices@[0]
                &&& final(indices)@[3 * i + 1] == t.indices@[1]
                &&& final(indices)@[3 * i + 2] == t.indices@[2]
            },
        forall|k: int|
            triangles@.len() * 3 <= k < old(indices)@.len() ==> final(indices)@[k] == old(
                indices,
            )@[k],
{
    let n = triangles.len();
    let ilen = indices.len();
    let mut i: usize = 0;
    while i < n
        invariant
            0 <= i <= n,
            n == triangles@.len(),
            ilen == indices@.len(),
            n * 3 <= indices@.len() <= usize::MAX,
            indices@.len() == old(indices)@.len(),
            forall|k: int|
                0 <= k < i ==> {
                    let t = #[trigger] triangles@[k];
                    &&& indices@[3 * k] == t.indices@[0]
                    &&& indices@[3 * k + 1] == t.indices@[1]
                    &&& indices@[3 * k + 2] == t.indices@[2]
                },
            forall|k: int| 3 * i <= k < indices@.len() ==> indices@[k] == old(indices)@[k],
        decreases n - i,
    {
        let t = triangles[i];
        indices[3 * i] = t.indices[0];
        indices[3 * i + 1] = t.indices[1];
        indices[3 * i + 2] = t.indices[2];
        i = i + 1;
    }
}

/// Exchange two elements of a vector.
fn vec_swap<T: Copy>(v: &mut Vec<T>, i: usize, j: usize)
    requires
        i < old(v).len(),
        j < old(v).len(),
    ensures
        final(v)@ == old(v)@.update(i as int, old(v)@[j as int]).update(j as int, old(v)@[i as int]),
        final(v)@.len() == old(v)@.len(),
{
    let a = v[i];
    let b = v[j];
    v[i] = b;
    v[j] = a;
}

/// Swapping two elements leaves a sequence's multiset unchanged.
proof fn lemma_swap_preserves_multiset<T>(s: Seq<T>, i: int, j: int)
    requires
        0 <= i < s.len(),
        0 <= j < s.len(),
    ensures
        s.update(i, s[j]).update(j, s[i]).to_multiset() == s.to_multiset(),
{
    broadcast use group_to_multiset_ensures;

    let s1 = s.update(i, s[j]);
    let s2 = s1.update(j, s[i]);
    assert(s1[j] == s[j] || (i == j && s1[j] == s[j]));
    assert(s.to_multiset().contains(s[i]));
    assert(s.to_multiset().contains(s[j]));
    assert(s2.to_multiset() =~= s.to_multiset());
}

/// Swapping two elements inside `[lo, hi)` leaves the multiset of that
/// subrange unchanged.
proof fn lemma_swap_subrange_multiset<T>(s: Seq<T>, lo: int, hi: int, i: int, j: int)
    requires
        0 <= lo <= i < hi <= s.len(),
        lo <= j < hi,
    ensures
        s.update(i, s[j]).update(j, s[i]).subrange(lo, hi).to_multiset() == s.subrange(
            lo,
            hi,
        ).to_multiset(),
{
    let sub = s.subrange(lo, hi);
    assert(s.update(i, s[j]).update(j, s[i]).subrange(lo, hi) =~= sub.update(
        i - lo,
        sub[j - lo],
    ).update(j - lo, sub[i - lo]));
    lemma_swap_preserves_multiset(sub, i - lo, j - lo);
}

/// `new_s` differs from `old_s` only by a permutation of `[lo, hi)`.
pub open spec fn permuted_in_range<T>(old_s: Seq<T>, new_s: Seq<T>, lo: int, hi: int) -> bool {
    &&& new_s.len() == old_s.len()
    &&& forall|k: int| 0 <= k < old_s.len() && !(lo <= k < hi) ==> new_s[k] == old_s[k]
    &&& new_s.subrange(lo, hi).to_multiset() == old_s.subrange(lo, hi).to_multiset()
}

/// A candidate partition: primitives whose center is strictly below `mid` on
/// `axis` go left, the rest go right.
struct Split {
    axis: usize,
    mid: i64,
}

/// SAH cost of a leaf holding just this primitive.
pub open spec fn singleton_cost<T: BVHPrimitive>(p: T) -> int {
    spec_box_cost(p.s_min(), p.s_max(), 1)
}

/// Whether separating a two-primitive leaf into two singleton leaves costs
/// strictly less than keeping the parent leaf.
pub open spec fn pair_split_better<T: BVHPrimitive>(prims: Seq<T>, parent: BVHNode) -> bool {
    singleton_cost(prims[parent.start as int]) + singleton_cost(prims[parent.start + 1])
        < spec_box_cost(parent.min, parent.max, 2)
}

/// The same comparison phrased over the primitive pair at `lo` and its
/// exact bounding box.
pub open spec fn pair_split_better_at<T: BVHPrimitive>(prims: Seq<T>, lo: int) -> bool {
    singleton_cost(prims[lo]) + singleton_cost(prims[lo + 1]) < spec_box_cost(
        range_aabb(prims, lo, lo + 2).0,
        range_aabb(prims, lo, lo + 2).1,
        2,
    )
}

/// Partition the parent's range in place around `sp`: a single sweep swaps
/// every primitive with center below the plane into the next free slot at the
/// front of the range. Fails (keeping the leaf) when either side ends empty.
fn split<T: BVHPrimitive>(prims: &mut Vec<T>, parent: &BVHNode, sp: Split) -> (r: Option<
    (BVHNode, BVHNode),
>)
    requires
        parent.spec_is_leaf(),
        parent.start < parent.end,
        parent.end <= old(prims).len() <= u32::MAX,
        parent.box_ok(),
        sp.axis < 3,
        forall|j: int|
            parent.start <= j < parent.end ==> prim_ok(#[trigger] old(prims)@[j]) && enclosed(
                old(prims)@[j],
                *parent,
            ),
    ensures
        permuted_in_range(old(prims)@, final(prims)@, parent.start as int, parent.end as int),
        forall|j: int|
            parent.start <= j < parent.end ==> prim_ok(#[trigger] final(prims)@[j]) && enclosed(
                final(prims)@[j],
                *parent,
            ),
        (r is None) <==> ((forall|j: int|
            parent.start <= j < parent.end ==> (#[trigger] old(prims)@[j]).s_center().axis(
                sp.axis as int,
            ) < sp.mid) || (forall|j: int|
            parent.start <= j < parent.end ==> (#[trigger] old(prims)@[j]).s_center().axis(
                sp.axis as int,
            ) >= sp.mid)),
        r is None ==> final(prims)@ == old(prims)@,
        match r {
            Some(pair) => {
                &&& pair.0.spec_is_leaf()
                &&& pair.1.spec_is_leaf()
                &&& pair.0.box_ok()
                &&& pair.1.box_ok()
                &&& pair.0.start == parent.start
                &&& pair.0.start < pair.0.end
                &&& pair.1.start == pair.0.end
                &&& pair.1.start < pair.1.end
                &&& pair.1.end == parent.end
                &&& parent.box_contains(pair.0)
                &&& parent.box_contains(pair.1)
                &&& forall|j: int|
                    pair.0.start <= j < pair.0.end ==> enclosed(
                        #[trigger] final(prims)@[j],
                        pair.0,
                    ) && (#[trigger] final(prims)@[j]).s_center().axis(sp.axis as int) < sp.mid
                &&& forall|j: int|
                    pair.1.start <= j < pair.1.end ==> enclosed(
                        #[trigger] final(prims)@[j],
                        pair.1,
                    ) && (#[trigger] final(prims)@[j]).s_center().axis(sp.axis as int) >= sp.mid
            },
            None => true,
        },
{
    let lo = parent.start as usize;
    let hi = parent.end as usize;
    let mut left = Bin::empty();
    let mut right = Bin::empty();
    let mut i: usize = lo;
    while i < hi
        invariant
            lo == parent.start as usize,
            hi == parent.end as usize,
            lo <= i <= hi <= prims@.len(),
            prims@.len() == old(prims)@.len() <= u32::MAX,
            parent.box_ok(),
            sp.axis < 3,
            bin_ok(left),
            bin_ok(right),
            left.count + right.count == i - lo,
            forall|k: int|
                lo <= k < lo + left.count ==> (#[trigger] prims@[k]).s_center().axis(
                    sp.axis as int,
                ) < sp.mid && bin_encloses(left, prims@[k]),
            forall|k: int|
                lo + left.count <= k < i ==> (#[trigger] prims@[k]).s_center().axis(sp.axis as int)
                    >= sp.mid && bin_encloses(right, prims@[k]),
            left.count > 0 ==> parent.min.le(left.min) && left.max.le(parent.max),
            right.count > 0 ==> parent.min.le(right.min) && right.max.le(parent.max),
            left.count == 0 ==> prims@ == old(prims)@,
            left.count == i - lo ==> prims@ == old(prims)@,
            permuted_in_range(old(prims)@, prims@, lo as int, hi as int),
            forall|j: int|
                lo <= j < hi ==> prim_ok(#[trigger] prims@[j]) && enclosed(prims@[j], *parent),
        decreases hi - i,
    {
        let p = prims[i];
        let c = p.center().get_axis(sp.axis);
        if c < sp.mid {
            left.absorb(&p);
            let target = lo + (left.count as usize) - 1;
            let ghost before_swap = prims@;
            proof {
                lemma_swap_subrange_multiset(
                    prims@,
                    lo as int,
                    hi as int,
                    i as int,
                    target as int,
                );
            }
            vec_swap(prims, i, target);
            proof {
                if target == i {
                    assert(prims@ =~= before_swap);
                }
            }
        } else {
            right.absorb(&p);
        }
        i = i + 1;
    }
    if left.count == 0 || right.count == 0 {
        proof {
            if left.count == 0 {
                // nothing went left: every center in the (unchanged) range
                // is at or above the plane
                assert(forall|j: int|
                    parent.start <= j < parent.end ==> (#[trigger] prims@[j]).s_center().axis(
                        sp.axis as int,
                    ) >= sp.mid);
            } else {
                // everything went left: every center is below the plane
                assert(left.count == hi - lo);
                assert(forall|j: int|
                    parent.start <= j < parent.end ==> (#[trigger] prims@[j]).s_center().axis(
                        sp.axis as int,
                    ) < sp.mid);
            }
        }
        return None;
    }
    proof {
        // both sides are populated, so the range (before reordering) held a
        // center on each side of the plane
        lemma_permuted_element_source(old(prims)@, prims@, lo as int, hi as int, lo as int);
        lemma_permuted_element_source(
            old(prims)@,
            prims@,
            lo as int,
            hi as int,
            lo as int + left.count,
        );
    }
    let lcount = left.count as u32;
    let l = BVHNode { min: left.min, start: parent.start, max: left.max, end: parent.start + lcount };
    let rt = BVHNode {
        min: right.min,
        start: parent.start + lcount,
        max: right.max,
        end: parent.end,
    };
    Some((l, rt))
}

/// The bin holding nothing yet.
pub open spec fn spec_bin_empty() -> Bin {
    Bin { min: Vec3i { x: 0, y: 0, z: 0 }, max: Vec3i { x: 0, y: 0, z: 0 }, count: 0 }
}

/// One step of accumulating a primitive into a bin, as `Bin::absorb` does.
pub open spec fn spec_bin_absorb<T: BVHPrimitive>(b: Bin, p: T) -> Bin {
    if b.count == 0 {
        Bin { min: p.s_min(), max: p.s_max(), count: 1 }
    } else {
        Bin {
            min: b.min.spec_min(p.s_min()),
            max: b.max.spec_max(p.s_max()),
            count: (b.count + 1) as u64,
        }
    }
}

/// The bin one sweep of `prims[lo..hi]` accumulates on the left
/// (`keep_left`) or right side of the plane `center.axis(axis) < mid`.
pub open spec fn partition_bin<T: BVHPrimitive>(
    prims: Seq<T>,
    lo: int,
    hi: int,
    axis: int,
    mid: int,
    keep_left: bool,
) -> Bin
    decreases hi - lo,
{
    if hi <= lo {
        spec_bin_empty()
    } else {
        let b = partition_bin(prims, lo, hi - 1, axis, mid, keep_left);
        if (prims[hi - 1].s_center().axis(axis) < mid) == keep_left {
            spec_bin_absorb(b, prims[hi - 1])
        } else {
            b
        }
    }
}

/// SAH cost of partitioning `prims[lo..hi]` at the plane
/// `center.axis(axis) < mid`: the cost of the two accumulated sides.
pub open spec fn partition_cost<T: BVHPrimitive>(
    prims: Seq<T>,
    lo: int,
    hi: int,
    axis: int,
    mid: int,
) -> int {
    spec_bin_cost(partition_bin(prims, lo, hi, axis, mid, true)) + spec_bin_cost(
        partition_bin(prims, lo, hi, axis, mid, false),
    )
}

/// The candidate plane of axis `a` through the center of `prims[i]`.
pub open spec fn candidate_mid<T: BVHPrimitive>(prims: Seq<T>, i: int, a: int) -> int {
    prims[i].s_center().axis(a)
}

/// Brute-force SAH search for small ranges: try every primitive's center on
/// every axis as the splitting plane and select the candidate of minimal
/// partition cost, strictly below the parent's own cost; none qualifies
/// exactly when every candidate costs at least the parent. `split` enforces
/// validity of the returned plane.
#[verifier::rlimit(100)]
fn find_best_split<T: BVHPrimitive>(prims: &Vec<T>, parent: &BVHNode) -> (r: Option<Split>)
    requires
        parent.spec_is_leaf(),
        parent.start < parent.end,
        parent.end <= prims@.len() <= u32::MAX,
        parent.box_ok(),
        forall|j: int|
            parent.start <= j < parent.end ==> prim_ok(#[trigger] prims@[j]) && enclosed(
                prims@[j],
                *parent,
            ),
    ensures
        r is None ==> forall|a: int, i: int|
            0 <= a < 3 && parent.start <= i < parent.end ==> #[trigger] partition_cost(
                prims@,
                parent.start as int,
                parent.end as int,
                a,
                candidate_mid(prims@, i, a),
            ) >= spec_box_cost(parent.min, parent.max, parent.end - parent.start),
        r matches Some(s) ==> {
            let best = partition_cost(
                prims@,
                parent.start as int,
                parent.end as int,
                s.axis as int,
                s.mid as int,
            );
            &&& s.axis < 3
            &&& exists|i: int|
                parent.start <= i < parent.end && s.mid as int == candidate_mid(
                    prims@,
                    i,
                    s.axis as int,
                )
            &&& best < spec_box_cost(parent.min, parent.max, parent.end - parent.start)
            &&& forall|a: int, i: int|
                0 <= a < 3 && parent.start <= i < parent.end ==> #[trigger] partition_cost(
                    prims@,
                    parent.start as int,
                    parent.end as int,
                    a,
                    candidate_mid(prims@, i, a),
                ) >= best
        },
{
    let lo = parent.start as usize;
    let hi = parent.end as usize;
    let ghost plo = parent.start as int;
    let ghost phi = parent.end as int;
    let ghost pcost = spec_box_cost(parent.min, parent.max, parent.end - parent.start);
    let parent_cost = box_cost(parent.min, parent.max, (parent.end - parent.start) as u64);
    let mut best_cost = parent_cost;
    let mut result: Option<Split> = None;
    let mut axis: usize = 0;
    while axis < 3
        invariant
            axis <= 3,
            lo == parent.start as usize,
            hi == parent.end as usize,
            plo == parent.start as int,
            phi == parent.end as int,
            lo < hi <= prims@.len() <= u32::MAX,
            parent.box_ok(),
            forall|j: int|
                parent.start <= j < parent.end ==> prim_ok(#[trigger] prims@[j]) && enclosed(
                    prims@[j],
                    *parent,
                ),
            pcost == spec_box_cost(parent.min, parent.max, parent.end - parent.start),
            parent_cost as int == pcost,
            best_cost as int == match result {
                Option::None => pcost,
                Option::Some(s) => partition_cost(prims@, plo, phi, s.axis as int, s.mid as int),
            },
            result matches Some(s) ==> s.axis < 3 && exists|i: int|
                plo <= i < phi && s.mid as int == candidate_mid(prims@, i, s.axis as int),
            result is Some ==> (best_cost as int) < pcost,
            result is None ==> best_cost as int == pcost,
            forall|a: int, i: int|
                0 <= a < axis && plo <= i < phi ==> #[trigger] partition_cost(
                    prims@,
                    plo,
                    phi,
                    a,
                    candidate_mid(prims@, i, a),
                ) >= best_cost as int,
        decreases 3 - axis,
    {
        let mut i: usize = lo;
        while i < hi
            invariant
                axis < 3,
                lo == parent.start as usize,
                hi == parent.end as usize,
                plo == parent.start as int,
                phi == parent.end as int,
                lo <= i <= hi <= prims@.len() <= u32::MAX,
                parent.box_ok(),
                forall|j: int|
                    parent.start <= j < parent.end ==> prim_ok(#[trigger] prims@[j]) && enclosed(
                        prims@[j],
                        *parent,
                    ),
                pcost == spec_box_cost(parent.min, parent.max, parent.end - parent.start),
                parent_cost as int == pcost,
                best_cost as int == match result {
                    Option::None => pcost,
                    Option::Some(s) => partition_cost(
                        prims@,
                        plo,
                        phi,
                        s.axis as int,
                        s.mid as int,
                    ),
                },
                result matches Some(s) ==> s.axis < 3 && exists|ii: int|
                    plo <= ii < phi && s.mid as int == candidate_mid(prims@, ii, s.axis as int),
                result is Some ==> (best_cost as int) < pcost,
                result is None ==> best_cost as int == pcost,
                forall|a: int, ii: int|
                    0 <= a < axis && plo <= ii < phi ==> #[trigger] partition_cost(
                        prims@,
                        plo,
                        phi,
                        a,
                        candidate_mid(prims@, ii, a),
                    ) >= best_cost as int,
                forall|ii: int|
                    plo <= ii < i ==> #[trigger] partition_cost(
                        prims@,
                        plo,
                        phi,
                        axis as int,
                        candidate_mid(prims@, ii, axis as int),
                    ) >= best_cost as int,
            decreases hi - i,
        {
            let mid = prims[i].center().get_axis(axis);
            let mut left = Bin::empty();
            let mut right = Bin::empty();
            let mut j: usize = lo;
            while j < hi
                invariant
                    axis < 3,
                    lo <= j <= hi <= prims@.len() <= u32::MAX,
                    forall|k: int|
                        parent.start <= k < parent.end ==> prim_ok(#[trigger] prims@[k])
                            && enclosed(prims@[k], *parent),
                    lo == parent.start as usize,
                    hi == parent.end as usize,
                    plo == parent.start as int,
                    phi == parent.end as int,
                    bin_ok(left),
                    bin_ok(right),
                    left.count + right.count == j - lo,
                    left == partition_bin(prims@, plo, j as int, axis as int, mid as int, true),
                    right == partition_bin(prims@, plo, j as int, axis as int, mid as int, false),
                decreases hi - j,
            {
                let p = prims[j];
                if p.center().get_axis(axis) < mid {
                    left.absorb(&p);
                } else {
                    right.absorb(&p);
                }
                j = j + 1;
            }
            let cost = left.cost() + right.cost();
            proof {
                assert(cost as int == partition_cost(prims@, plo, phi, axis as int, mid as int));
                assert(mid as int == candidate_mid(prims@, i as int, axis as int));
            }
            if cost < best_cost {
                best_cost = cost;
                result = Some(Split { axis, mid });
                proof {
                    assert(exists|ii: int|
                        plo <= ii < phi && (mid as int) == #[trigger] candidate_mid(
                            prims@,
                            ii,
                            axis as int,
                        )) by {
                        assert((mid as int) == candidate_mid(prims@, i as int, axis as int));
                    }
                }
            }
            i = i + 1;
        }
        axis = axis + 1;
    }
    result
}

/// Clamped bin index of a centroid offset `d >= 0` for bins of width
/// `step`: `min(d / step, 15)`, or bin 0 when the extent is flat.
fn bin_index(d: i64, step: i64) -> (r: usize)
    requires
        d >= 0,
    ensures
        r < N_BINS,
        step <= 0 ==> r == 0,
        step > 0 ==> r as int == (if d as int / step as int > 15 {
            15int
        } else {
            d as int / step as int
        }),
{
    if step <= 0 {
        0
    } else {
        let q = d / step;
        if q > 15 {
            15
        } else {
            q as usize
        }
    }
}

/// Width of one of the [`N_BINS`] bins on axis `a`: a sixteenth of the
/// parent's extent, rounded down.
pub open spec fn spec_bin_step(parent: BVHNode, a: int) -> int {
    (parent.max.axis(a) - parent.min.axis(a)) / 16
}

/// Bin of a center coordinate `c` on axis `a`:
/// `clamp(floor((c - parent.min) / step), 0, 15)`; everything lands in bin
/// 0 when the parent is flat on that axis.
pub open spec fn spec_bin_of(parent: BVHNode, a: int, c: int) -> int {
    let step = spec_bin_step(parent, a);
    if step <= 0 {
        0
    } else {
        let q = (c - parent.min.axis(a)) / step;
        if q > 15 {
            15
        } else {
            q
        }
    }
}

/// Merging two bins, as `Bin::absorb_bin` computes it.
pub open spec fn spec_bin_merge(b: Bin, o: Bin) -> Bin {
    Bin {
        min: if o.count == 0 {
            b.min
        } else if b.count == 0 {
            o.min
        } else {
            b.min.spec_min(o.min)
        },
        max: if o.count == 0 {
            b.max
        } else if b.count == 0 {
            o.max
        } else {
            b.max.spec_max(o.max)
        },
        count: (b.count + o.count) as u64,
    }
}

/// Bin `b` of axis `a` over `prims[lo..hi]`: box and count of the
/// primitives whose center falls into that bin.
pub open spec fn spec_axis_bin<T: BVHPrimitive>(
    prims: Seq<T>,
    lo: int,
    hi: int,
    parent: BVHNode,
    a: int,
    b: int,
) -> Bin
    decreases hi - lo,
{
    if hi <= lo {
        spec_bin_empty()
    } else {
        let prev = spec_axis_bin(prims, lo, hi - 1, parent, a, b);
        if spec_bin_of(parent, a, prims[hi - 1].s_center().axis(a)) == b {
            spec_bin_absorb(prev, prims[hi - 1])
        } else {
            prev
        }
    }
}

/// Bins `0..=i` of axis `a` merged, in bin order.
pub open spec fn spec_bins_below<T: BVHPrimitive>(
    prims: Seq<T>,
    lo: int,
    hi: int,
    parent: BVHNode,
    a: int,
    i: int,
) -> Bin
    decreases i + 1,
{
    if i < 0 {
        spec_bin_empty()
    } else {
        spec_bin_merge(
            spec_bins_below(prims, lo, hi, parent, a, i - 1),
            spec_axis_bin(prims, lo, hi, parent, a, i),
        )
    }
}

/// Bins `i+1..=j` of axis `a` merged, in bin order; empty when `j <= i`.
pub open spec fn spec_bins_above<T: BVHPrimitive>(
    prims: Seq<T>,
    lo: int,
    hi: int,
    parent: BVHNode,
    a: int,
    i: int,
    j: int,
) -> Bin
    decreases j - i,
{
    if j <= i {
        spec_bin_empty()
    } else {
        spec_bin_merge(
            spec_bins_above(prims, lo, hi, parent, a, i, j - 1),
            spec_axis_bin(prims, lo, hi, parent, a, j),
        )
    }
}

/// Binned SAH cost of boundary `i` (0..15) on axis `a`: the bins at or
/// below the boundary against the bins above it, each side costed as one
/// box.
pub open spec fn binned_boundary_cost<T: BVHPrimitive>(
    prims: Seq<T>,
    lo: int,
    hi: int,
    parent: BVHNode,
    a: int,
    i: int,
) -> int {
    spec_bin_cost(spec_bins_below(prims, lo, hi, parent, a, i)) + spec_bin_cost(
        spec_bins_above(prims, lo, hi, parent, a, i, 15),
    )
}

/// The plane the sweep places at boundary `i` of axis `a`:
/// `parent.min + step * (i + 1)`.
pub open spec fn spec_boundary_mid(parent: BVHNode, a: int, i: int) -> int {
    parent.min.axis(a) + spec_bin_step(parent, a) * (i + 1)
}

/// Binned SAH search for large ranges: drop each primitive into one of
/// [`N_BINS`] equal-width bins per axis by its center, then sweep every
/// bin boundary as a candidate plane, accumulating the bins on each side,
/// and select the boundary of minimal binned cost, strictly below the
/// parent's own cost; none qualifies exactly when every one of the 45
/// boundaries costs at least the parent. The binned cost approximates the
/// candidate's true partition cost; `split` enforces validity.
#[verifier::rlimit(100)]
fn approximate_best_split<T: BVHPrimitive>(prims: &Vec<T>, parent: &BVHNode) -> (r: Option<Split>)
    requires
        parent.spec_is_leaf(),
        parent.start < parent.end,
        parent.end <= prims@.len() <= u32::MAX,
        parent.box_ok(),
        forall|j: int|
            parent.start <= j < parent.end ==> prim_ok(#[trigger] prims@[j]) && enclosed(
                prims@[j],
                *parent,
            ),
    ensures
        r is None ==> forall|a: int, i: int|
            0 <= a < 3 && 0 <= i < 15 ==> #[trigger] binned_boundary_cost(
                prims@,
                parent.start as int,
                parent.end as int,
                *parent,
                a,
                i,
            ) >= spec_box_cost(parent.min, parent.max, parent.end - parent.start),
        r matches Some(s) ==> {
            &&& s.axis < 3
            &&& parent.min.axis(s.axis as int) <= s.mid <= parent.max.axis(s.axis as int)
            &&& exists|i: int|
                0 <= i < 15 && s.mid as int == spec_boundary_mid(*parent, s.axis as int, i) && (
                #[trigger] binned_boundary_cost(
                    prims@,
                    parent.start as int,
                    parent.end as int,
                    *parent,
                    s.axis as int,
                    i,
                )) < spec_box_cost(parent.min, parent.max, parent.end - parent.start) && (
                forall|a2: int, i2: int|
                    0 <= a2 < 3 && 0 <= i2 < 15 ==> #[trigger] binned_boundary_cost(
                        prims@,
                        parent.start as int,
                        parent.end as int,
                        *parent,
                        a2,
                        i2,
                    ) >= binned_boundary_cost(
                        prims@,
                        parent.start as int,
                        parent.end as int,
                        *parent,
                        s.axis as int,
                        i,
                    ))
        },
{
    let lo = parent.start as usize;
    let hi = parent.end as usize;
    let ghost plo = parent.start as int;
    let ghost phi = parent.end as int;
    let ghost pcost = spec_box_cost(parent.min, parent.max, parent.end - parent.start);
    let range_size = (parent.end - parent.start) as u64;

    let step_x = (parent.max.x - parent.min.x) / 16;
    let step_y = (parent.max.y - parent.min.y) / 16;
    let step_z = (parent.max.z - parent.min.z) / 16;
    proof {
        vstd::arithmetic::div_mod::lemma_fundamental_div_mod(
            parent.max.x - parent.min.x,
            16,
        );
        vstd::arithmetic::div_mod::lemma_mod_bound(parent.max.x - parent.min.x, 16);
        vstd::arithmetic::div_mod::lemma_fundamental_div_mod(
            parent.max.y - parent.min.y,
            16,
        );
        vstd::arithmetic::div_mod::lemma_mod_bound(parent.max.y - parent.min.y, 16);
        vstd::arithmetic::div_mod::lemma_fundamental_div_mod(
            parent.max.z - parent.min.z,
            16,
        );
        vstd::arithmetic::div_mod::lemma_mod_bound(parent.max.z - parent.min.z, 16);
        assert(step_x as int == spec_bin_step(*parent, 0));
        assert(step_y as int == spec_bin_step(*parent, 1));
        assert(step_z as int == spec_bin_step(*parent, 2));
    }

    let mut bins: Vec<Bin> = Vec::new();
    let mut k: usize = 0;
    while k < 48
        invariant
            k <= 48,
            bins@.len() == k,
            forall|b: int| 0 <= b < k ==> #[trigger] bins@[b] == spec_bin_empty(),
        decreases 48 - k,
    {
        bins.push(Bin::empty());
        k = k + 1;
    }

    let mut i: usize = lo;
    while i < hi
        invariant
            lo == parent.start as usize,
            hi == parent.end as usize,
            plo == parent.start as int,
            phi == parent.end as int,
            lo <= i <= hi <= prims@.len() <= u32::MAX,
            parent.box_ok(),
            step_x as int == spec_bin_step(*parent, 0),
            step_y as int == spec_bin_step(*parent, 1),
            step_z as int == spec_bin_step(*parent, 2),
            forall|j: int|
                parent.start <= j < parent.end ==> prim_ok(#[trigger] prims@[j]) && enclosed(
                    prims@[j],
                    *parent,
                ),
            bins@.len() == 48,
            forall|b: int| 0 <= b < 48 ==> bin_ok(#[trigger] bins@[b]) && bins@[b].count <= i - lo,
            forall|a: int, b: int|
                0 <= a < 3 && 0 <= b < 16 ==> #[trigger] bins@[a * 16 + b] == spec_axis_bin(
                    prims@,
                    plo,
                    i as int,
                    *parent,
                    a,
                    b,
                ),
        decreases hi - i,
    {
        let ghost bins0 = bins@;
        let p = prims[i];
        let c = p.center();
        let bx = bin_index(c.x - parent.min.x, step_x);
        let by = bin_index(c.y - parent.min.y, step_y);
        let bz = bin_index(c.z - parent.min.z, step_z);
        proof {
            assert(bx as int == spec_bin_of(*parent, 0, p.s_center().axis(0)));
            assert(by as int == spec_bin_of(*parent, 1, p.s_center().axis(1)));
            assert(bz as int == spec_bin_of(*parent, 2, p.s_center().axis(2)));
        }
        let mut bin = bins[bx];
        bin.absorb(&p);
        bins[bx] = bin;
        let mut bin = bins[16 + by];
        bin.absorb(&p);
        bins[16 + by] = bin;
        let mut bin = bins[32 + bz];
        bin.absorb(&p);
        bins[32 + bz] = bin;
        proof {
            assert forall|a: int, b: int| 0 <= a < 3 && 0 <= b < 16 implies #[trigger] bins@[a * 16
                + b] == spec_axis_bin(prims@, plo, i as int + 1, *parent, a, b) by {
                let chosen: int = if a == 0 {
                    bx as int
                } else if a == 1 {
                    by as int
                } else {
                    bz as int
                };
                assert(bins0[a * 16 + b] == spec_axis_bin(prims@, plo, i as int, *parent, a, b));
                if b == chosen {
                    assert(bins@[a * 16 + b] == spec_bin_absorb(bins0[a * 16 + b], p));
                } else {
                    assert(bins@[a * 16 + b] == bins0[a * 16 + b]);
                }
            }
        }
        i = i + 1;
    }

    let parent_cost = box_cost(parent.min, parent.max, range_size);
    let mut best_cost = parent_cost;
    let mut result: Option<Split> = None;
    let ghost mut best_at: (int, int) = (0int, 0int);
    let mut axis: usize = 0;
    while axis < 3
        invariant
            axis <= 3,
            lo < hi <= prims@.len() <= u32::MAX,
            lo == parent.start as usize,
            hi == parent.end as usize,
            plo == parent.start as int,
            phi == parent.end as int,
            range_size == hi - lo,
            parent.box_ok(),
            pcost == spec_box_cost(parent.min, parent.max, parent.end - parent.start),
            parent_cost as int == pcost,
            step_x as int == spec_bin_step(*parent, 0),
            step_y as int == spec_bin_step(*parent, 1),
            step_z as int == spec_bin_step(*parent, 2),
            step_x >= 0 && 16 * step_x <= parent.max.x - parent.min.x,
            step_y >= 0 && 16 * step_y <= parent.max.y - parent.min.y,
            step_z >= 0 && 16 * step_z <= parent.max.z - parent.min.z,
            bins@.len() == 48,
            forall|b: int|
                0 <= b < 48 ==> bin_ok(#[trigger] bins@[b]) && bins@[b].count <= range_size,
            forall|a: int, b: int|
                0 <= a < 3 && 0 <= b < 16 ==> #[trigger] bins@[a * 16 + b] == spec_axis_bin(
                    prims@,
                    plo,
                    phi,
                    *parent,
                    a,
                    b,
                ),
            best_cost as int == match result {
                Option::None => pcost,
                Option::Some(s) => binned_boundary_cost(
                    prims@,
                    plo,
                    phi,
                    *parent,
                    best_at.0,
                    best_at.1,
                ),
            },
            result matches Some(s) ==> {
                &&& 0 <= best_at.0 < 3
                &&& 0 <= best_at.1 < 15
                &&& s.axis as int == best_at.0
                &&& s.mid as int == spec_boundary_mid(*parent, best_at.0, best_at.1)
                &&& (best_cost as int) < pcost
                &&& parent.min.axis(s.axis as int) <= s.mid <= parent.max.axis(s.axis as int)
            },
            result is None ==> best_cost as int == pcost,
            forall|a: int, i2: int|
                0 <= a < axis && 0 <= i2 < 15 ==> #[trigger] binned_boundary_cost(
                    prims@,
                    plo,
                    phi,
                    *parent,
                    a,
                    i2,
                ) >= best_cost as int,
        decreases 3 - axis,
    {
        let step = if axis == 0 {
            step_x
        } else if axis == 1 {
            step_y
        } else {
            step_z
        };
        let mut left = Bin::empty();
        let mut i: usize = 0;
        while i < 15
            invariant
                axis < 3,
                i <= 15,
                lo < hi <= prims@.len() <= u32::MAX,
                lo == parent.start as usize,
                hi == parent.end as usize,
                plo == parent.start as int,
                phi == parent.end as int,
                range_size == hi - lo,
                parent.box_ok(),
                pcost == spec_box_cost(parent.min, parent.max, parent.end - parent.start),
                parent_cost as int == pcost,
                step >= 0,
                axis == 0 ==> step == step_x,
                axis == 1 ==> step == step_y,
                axis == 2 ==> step == step_z,
                step as int == spec_bin_step(*parent, axis as int),
                step_x >= 0 && 16 * step_x <= parent.max.x - parent.min.x,
                step_y >= 0 && 16 * step_y <= parent.max.y - parent.min.y,
                step_z >= 0 && 16 * step_z <= parent.max.z - parent.min.z,
                bins@.len() == 48,
                forall|b: int|
                    0 <= b < 48 ==> bin_ok(#[trigger] bins@[b]) && bins@[b].count <= range_size,
                forall|a: int, b: int|
                    0 <= a < 3 && 0 <= b < 16 ==> #[trigger] bins@[a * 16 + b] == spec_axis_bin(
                        prims@,
                        plo,
                        phi,
                        *parent,
                        a,
                        b,
                    ),
                bin_ok(left),
                left.count <= i * range_size,
                left == spec_bins_below(prims@, plo, phi, *parent, axis as int, i as int - 1),
                best_cost as int == match result {
                    Option::None => pcost,
                    Option::Some(s) => binned_boundary_cost(
                        prims@,
                        plo,
                        phi,
                        *parent,
                        best_at.0,
                        best_at.1,
                    ),
                },
                result matches Some(s) ==> {
                    &&& 0 <= best_at.0 < 3
                    &&& 0 <= best_at.1 < 15
                    &&& s.axis as int == best_at.0
                    &&& s.mid as int == spec_boundary_mid(*parent, best_at.0, best_at.1)
                    &&& (best_cost as int) < pcost
                    &&& parent.min.axis(s.axis as int) <= s.mid <= parent.max.axis(s.axis as int)
                },
                result is None ==> best_cost as int == pcost,
                forall|a: int, i2: int|
                    0 <= a < axis && 0 <= i2 < 15 ==> #[trigger] binned_boundary_cost(
                        prims@,
                        plo,
                        phi,
                        *parent,
                        a,
                        i2,
                    ) >= best_cost as int,
                forall|i2: int|
                    0 <= i2 < i ==> #[trigger] binned_boundary_cost(
                        prims@,
                        plo,
                        phi,
                        *parent,
                        axis as int,
                        i2,
                    ) >= best_cost as int,
            decreases 15 - i,
        {
            let b = bins[axis * 16 + i];
            proof {
                lemma_mul_magnitude(i as int, range_size as int, 15, 0x1_0000_0000);
                lemma_mul_magnitude((i + 1) as int, range_size as int, 15, 0x1_0000_0000);
                assert((i + 1) * range_size == i * range_size + range_size) by (nonlinear_arith);
                assert(b == spec_axis_bin(prims@, plo, phi, *parent, axis as int, i as int));
            }
            left.absorb_bin(&b);
            proof {
                assert(left == spec_bins_below(prims@, plo, phi, *parent, axis as int, i as int));
            }
            let mut right = Bin::empty();
            let mut j: usize = i + 1;
            while j < 16
                invariant
                    axis < 3,
                    i < 15,
                    i + 1 <= j <= 16,
                    plo == parent.start as int,
                    phi == parent.end as int,
                    range_size <= 0x1_0000_0000,
                    bins@.len() == 48,
                    forall|b: int|
                        0 <= b < 48 ==> bin_ok(#[trigger] bins@[b]) && bins@[b].count
                            <= range_size,
                    forall|a: int, b: int|
                        0 <= a < 3 && 0 <= b < 16 ==> #[trigger] bins@[a * 16 + b] == spec_axis_bin(
                            prims@,
                            plo,
                            phi,
                            *parent,
                            a,
                            b,
                        ),
                    bin_ok(right),
                    right.count <= (j - i - 1) * range_size,
                    right == spec_bins_above(
                        prims@,
                        plo,
                        phi,
                        *parent,
                        axis as int,
                        i as int,
                        j as int - 1,
                    ),
                decreases 16 - j,
            {
                let rb = bins[axis * 16 + j];
                proof {
                    lemma_mul_magnitude((j - i - 1) as int, range_size as int, 16, 0x1_0000_0000);
                    lemma_mul_magnitude((j - i) as int, range_size as int, 16, 0x1_0000_0000);
                    assert((j - i) * range_size == (j - i - 1) * range_size + range_size)
                        by (nonlinear_arith);
                    assert(rb == spec_axis_bin(prims@, plo, phi, *parent, axis as int, j as int));
                }
                right.absorb_bin(&rb);
                j = j + 1;
            }
            proof {
                lemma_mul_magnitude(i as int + 1, range_size as int, 16, 0x1_0000_0000);
                lemma_mul_magnitude(16 - i as int - 1, range_size as int, 16, 0x1_0000_0000);
            }
            let cost = left.cost() + right.cost();
            proof {
                assert(cost as int == binned_boundary_cost(
                    prims@,
                    plo,
                    phi,
                    *parent,
                    axis as int,
                    i as int,
                ));
            }
            if cost < best_cost {
                best_cost = cost;
                let base = if axis == 0 {
                    parent.min.x
                } else if axis == 1 {
                    parent.min.y
                } else {
                    parent.min.z
                };
                let iplus: i64 = (i as i64) + 1;
                proof {
                    lemma_mul_magnitude(step as int, iplus as int, 0x40_0000_0000, 16);
                    assert((step as int) * (iplus as int) <= 16 * (step as int))
                        by (nonlinear_arith)
                        requires
                            0 <= step as int,
                            iplus as int <= 16,
                    ;
                    assert((step as int) * (iplus as int) >= 0) by (nonlinear_arith)
                        requires
                            0 <= step as int,
                            0 <= iplus as int,
                    ;
                }
                let mid = base + step * iplus;
                result = Some(Split { axis, mid });
                proof {
                    best_at = (axis as int, i as int);
                }
            }
            i = i + 1;
        }
        axis = axis + 1;
    }
    proof {
        if result is Some {
            let s = result->Some_0;
            assert(0 <= best_at.1 < 15 && s.mid as int == spec_boundary_mid(
                *parent,
                s.axis as int,
                best_at.1,
            ) && binned_boundary_cost(prims@, plo, phi, *parent, s.axis as int, best_at.1)
                < pcost);
        }
    }
    result
}

/// Decide whether and how to split a leaf, as a function of its primitive
/// count: none for a single primitive, an explicit two-leaf comparison for a
/// pair, brute-force SAH up to 11, binned SAH from 12 up. On success the
/// range has been partitioned in place and the two child leaves are returned.
fn split_node<T: BVHPrimitive>(prims: &mut Vec<T>, parent: &BVHNode) -> (r: Option<
    (BVHNode, BVHNode),
>)
    requires
        parent.spec_is_leaf(),
        parent.start < parent.end,
        parent.end <= old(prims).len() <= u32::MAX,
        parent.box_ok(),
        forall|j: int|
            parent.start <= j < parent.end ==> prim_ok(#[trigger] old(prims)@[j]) && enclosed(
                old(prims)@[j],
                *parent,
            ),
    ensures
        permuted_in_range(old(prims)@, final(prims)@, parent.start as int, parent.end as int),
        forall|j: int|
            parent.start <= j < parent.end ==> prim_ok(#[trigger] final(prims)@[j]) && enclosed(
                final(prims)@[j],
                *parent,
            ),
        parent.end - parent.start == 1 ==> r is None && final(prims)@ == old(prims)@,
        parent.end - parent.start == 2 ==> final(prims)@ == old(prims)@ && ((r is Some)
            <==> pair_split_better(old(prims)@, *parent)),
        3 <= parent.end - parent.start <= 11 && r is Some ==> exists|a: int, i: int|
            0 <= a < 3 && parent.start <= i < parent.end && #[trigger] partition_cost(
                old(prims)@,
                parent.start as int,
                parent.end as int,
                a,
                candidate_mid(old(prims)@, i, a),
            ) < spec_box_cost(parent.min, parent.max, parent.end - parent.start),
        parent.end - parent.start >= 12 && r is Some ==> exists|a: int, i: int|
            0 <= a < 3 && 0 <= i < 15 && #[trigger] binned_boundary_cost(
                old(prims)@,
                parent.start as int,
                parent.end as int,
                *parent,
                a,
                i,
            ) < spec_box_cost(parent.min, parent.max, parent.end - parent.start),
        match r {
            Some(pair) => {
                &&& parent.end - parent.start >= 2
                &&& pair.0.spec_is_leaf()
                &&& pair.1.spec_is_leaf()
                &&& pair.0.box_ok()
                &&& pair.1.box_ok()
                &&& pair.0.start == parent.start
                &&& pair.0.start < pair.0.end
                &&& pair.1.start == pair.0.end
                &&& pair.1.start < pair.1.end
                &&& pair.1.end == parent.end
                &&& parent.box_contains(pair.0)
                &&& parent.box_contains(pair.1)
                &&& forall|j: int|
                    pair.0.start <= j < pair.0.end ==> enclosed(
                        #[trigger] final(prims)@[j],
                        pair.0,
                    )
                &&& forall|j: int|
                    pair.1.start <= j < pair.1.end ==> enclosed(
                        #[trigger] final(prims)@[j],
                        pair.1,
                    )
            },
            None => true,
        },
{
    let count = parent.end - parent.start;
    proof {
        assert(old(prims)@.subrange(parent.start as int, parent.end as int).to_multiset()
            =~= prims@.subrange(parent.start as int, parent.end as int).to_multiset());
    }
    if count <= 1 {
        None
    } else if count == 2 {
        let l = new_leaf(prims, parent.start, parent.start + 1);
        let rt = new_leaf(prims, parent.start + 1, parent.start + 2);
        let lc = box_cost(l.min, l.max, 1);
        let rc = box_cost(rt.min, rt.max, 1);
        let pc = box_cost(parent.min, parent.max, 2);
        if lc + rc < pc {
            Some((l, rt))
        } else {
            None
        }
    } else if count <= 11 {
        match find_best_split(prims, parent) {
            Some(s) => {
                proof {
                    // the selected plane is a candidate that beat the parent
                    let i0 = choose|i0: int|
                        parent.start <= i0 < parent.end && s.mid as int == candidate_mid(
                            prims@,
                            i0,
                            s.axis as int,
                        );
                    assert(partition_cost(
                        prims@,
                        parent.start as int,
                        parent.end as int,
                        s.axis as int,
                        candidate_mid(prims@, i0, s.axis as int),
                    ) < spec_box_cost(parent.min, parent.max, parent.end - parent.start));
                }
                split(prims, parent, s)
            },
            None => None,
        }
    } else {
        match approximate_best_split(prims, parent) {
            Some(s) => {
                proof {
                    // the selected boundary's binned cost beat the parent
                    let i0 = choose|i0: int|
                        0 <= i0 < 15 && s.mid as int == spec_boundary_mid(
                            *parent,
                            s.axis as int,
                            i0,
                        ) && binned_boundary_cost(
                            prims@,
                            parent.start as int,
                            parent.end as int,
                            *parent,
                            s.axis as int,
                            i0,
                        ) < spec_box_cost(parent.min, parent.max, parent.end - parent.start);
                    assert(binned_boundary_cost(
                        prims@,
                        parent.start as int,
                        parent.end as int,
                        *parent,
                        s.axis as int,
                        i0,
                    ) < spec_box_cost(parent.min, parent.max, parent.end - parent.start));
                }
                split(prims, parent, s)
            },
            None => None,
        }
    }
}

/// Permutations compose: reordering `[start, end)` and then reordering a
/// subrange of it is still a reordering of `[start, end)`.
proof fn lemma_permuted_compose<T>(
    a: Seq<T>,
    b: Seq<T>,
    c: Seq<T>,
    start: int,
    end: int,
    ns: int,
    ne: int,
)
    requires
        0 <= start <= ns <= ne <= end <= a.len(),
        permuted_in_range(a, b, start, end),
        permuted_in_range(b, c, ns, ne),
    ensures
        permuted_in_range(a, c, start, end),
{
    assert(b.subrange(start, end) =~= b.subrange(start, ns) + b.subrange(ns, ne) + b.subrange(
        ne,
        end,
    ));
    assert(c.subrange(start, end) =~= c.subrange(start, ns) + c.subrange(ns, ne) + c.subrange(
        ne,
        end,
    ));
    assert(c.subrange(start, ns) =~= b.subrange(start, ns));
    assert(c.subrange(ne, end) =~= b.subrange(ne, end));
    lemma_multiset_commutative(b.subrange(start, ns) + b.subrange(ns, ne), b.subrange(ne, end));
    lemma_multiset_commutative(b.subrange(start, ns), b.subrange(ns, ne));
    lemma_multiset_commutative(c.subrange(start, ns) + c.subrange(ns, ne), c.subrange(ne, end));
    lemma_multiset_commutative(c.subrange(start, ns), c.subrange(ns, ne));
}

/// The exact bounding box of a range stays inside any bound its primitives
/// respect.
pub proof fn lemma_range_aabb_within<T: BVHPrimitive>(prims: Seq<T>, lo: int, hi: int, b: int)
    requires
        0 <= lo < hi <= prims.len(),
        forall|j: int|
            lo <= j < hi ==> (#[trigger] prims[j]).s_min().within(b) && prims[j].s_max().within(b),
    ensures
        range_aabb(prims, lo, hi).0.within(b),
        range_aabb(prims, lo, hi).1.within(b),
    decreases hi - lo,
{
    if hi - lo > 1 {
        lemma_range_aabb_within(prims, lo, hi - 1, b);
    }
}

/// Any element of the reordered range is one of the range's elements
/// from before the reordering.
pub proof fn lemma_permuted_element_source<T>(a: Seq<T>, b: Seq<T>, lo: int, hi: int, j: int)
    requires
        permuted_in_range(a, b, lo, hi),
        0 <= lo <= j < hi <= a.len(),
    ensures
        exists|k: int| lo <= k < hi && b[j] == #[trigger] a[k],
{
    broadcast use group_to_multiset_ensures;

    let sa = a.subrange(lo, hi);
    let sb = b.subrange(lo, hi);
    assert(sb[j - lo] == b[j]);
    assert(sb.contains(b[j]));
    assert(sa.to_multiset().count(b[j]) > 0);
    assert(sa.contains(b[j]));
    let k0 = choose|k0: int| 0 <= k0 < sa.len() && sa[k0] == b[j];
    assert(b[j] == a[lo + k0]);
}

/// Well-formedness of node `i` of the flat array, given the ghost primitive
/// range (`span`) each node covers.
///
/// A leaf's stored `[start, end)` is its span, it is non-empty, and the
/// node's box encloses every primitive in it. An inner node's children sit
/// after it in the array and their spans split the parent's span into two
/// adjacent non-empty parts, with both child boxes inside the parent's.
pub open spec fn node_ok<T: BVHPrimitive>(
    nodes: Seq<BVHNode>,
    spans: Seq<(int, int)>,
    prims: Seq<T>,
    i: int,
) -> bool {
    let n = nodes[i];
    let lo = spans[i].0;
    let hi = spans[i].1;
    &&& 0 <= lo < hi <= prims.len()
    &&& n.box_ok()
    &&& if n.spec_is_leaf() {
        &&& n.start == lo
        &&& n.end == hi
        &&& forall|j: int| lo <= j < hi ==> enclosed(#[trigger] prims[j], n)
    } else {
        let l = n.start as int;
        &&& i < l
        &&& l + 1 < nodes.len()
        &&& spans[l].0 == lo
        &&& spans[l].1 == spans[l + 1].0
        &&& spans[l + 1].1 == hi
        &&& lo < spans[l].1 < hi
        &&& n.box_contains(nodes[l])
        &&& n.box_contains(nodes[l + 1])
    }
}

/// No two leaves cover overlapping primitive ranges.
pub open spec fn leaf_spans_disjoint(nodes: Seq<BVHNode>, spans: Seq<(int, int)>) -> bool {
    forall|i: int, k: int|
        0 <= i < nodes.len() && 0 <= k < nodes.len() && i != k && (
        #[trigger] nodes[i]).spec_is_leaf() && (#[trigger] nodes[k]).spec_is_leaf() ==> spans[i].1
            <= spans[k].0 || spans[k].1 <= spans[i].0
}

/// Well-formedness of a whole BVH forest over `prims`.
pub open spec fn wf_all<T: BVHPrimitive>(
    nodes: Seq<BVHNode>,
    spans: Seq<(int, int)>,
    prims: Seq<T>,
) -> bool {
    &&& spans.len() == nodes.len()
    &&& forall|i: int| 0 <= i < nodes.len() ==> #[trigger] node_ok(nodes, spans, prims, i)
    &&& leaf_spans_disjoint(nodes, spans)
}

/// Build-queue weight: each pending leaf of span size `m` contributes
/// `2m - 1`, the number of nodes a complete split of it could still add.
spec fn stack_measure(stack: Seq<(u32, u32)>, spans: Seq<(int, int)>) -> int
    decreases stack.len(),
{
    if stack.len() == 0 {
        0
    } else {
        let idx = stack.last().1 as int;
        stack_measure(stack.drop_last(), spans) + 2 * (spans[idx].1 - spans[idx].0) - 1
    }
}

proof fn lemma_stack_measure_push(stack: Seq<(u32, u32)>, spans: Seq<(int, int)>, e: (u32, u32))
    ensures
        stack_measure(stack.push(e), spans) == stack_measure(stack, spans) + 2 * (spans[e.1 as int].1
            - spans[e.1 as int].0) - 1,
{
    assert(stack.push(e).drop_last() =~= stack);
}

proof fn lemma_stack_measure_nonneg(stack: Seq<(u32, u32)>, spans: Seq<(int, int)>)
    requires
        forall|k: int|
            0 <= k < stack.len() ==> (#[trigger] stack[k]).1 < spans.len() && spans[stack[k].1 as int].1
                > spans[stack[k].1 as int].0,
    ensures
        stack_measure(stack, spans) >= stack.len(),
    decreases stack.len(),
{
    if stack.len() > 0 {
        assert(forall|k: int|
            0 <= k < stack.drop_last().len() ==> #[trigger] stack.drop_last()[k] == stack[k]);
        lemma_stack_measure_nonneg(stack.drop_last(), spans);
    }
}

/// Extending the span table does not change the weight of entries that only
/// reference existing spans.
proof fn lemma_stack_measure_extend(
    stack: Seq<(u32, u32)>,
    spans: Seq<(int, int)>,
    spans2: Seq<(int, int)>,
)
    requires
        forall|k: int|
            0 <= k < stack.len() ==> spans2[(#[trigger] stack[k]).1 as int] == spans[stack[k].1 as int],
    ensures
        stack_measure(stack, spans2) == stack_measure(stack, spans),
    decreases stack.len(),
{
    if stack.len() > 0 {
        assert(forall|k: int|
            0 <= k < stack.drop_last().len() ==> #[trigger] stack.drop_last()[k] == stack[k]);
        lemma_stack_measure_extend(stack.drop_last(), spans, spans2);
    }
}

/// Every pending leaf covers a non-empty range, so the queue weight is at
/// least the queue length.
proof fn lemma_stack_entries_nonempty<T: BVHPrimitive>(
    stack: Seq<(u32, u32)>,
    nodes: Seq<BVHNode>,
    spans: Seq<(int, int)>,
    prims: Seq<T>,
)
    requires
        wf_all(nodes, spans, prims),
        forall|k: int| 0 <= k < stack.len() ==> (#[trigger] stack[k]).1 < nodes.len(),
    ensures
        stack_measure(stack, spans) >= stack.len(),
{
    assert forall|k: int|
        0 <= k < stack.len() implies (#[trigger] stack[k]).1 < spans.len()
        && spans[stack[k].1 as int].1 > spans[stack[k].1 as int].0 by {
        assert(node_ok(nodes, spans, prims, stack[k].1 as int));
    }
    lemma_stack_measure_nonneg(stack, spans);
}

/// A forest of bounding-volume hierarchies in one flat node array. Each
/// [`append`](BVHTree::append) adds one tree; the ghost span table records
/// the primitive range every node covers.
pub struct BVHTree {
    nodes: Vec<BVHNode>,
    spans: Ghost<Seq<(int, int)>>,
}

impl Default for BVHTree {
    /// An empty forest.
    fn default() -> (r: BVHTree)
        ensures
            r.nodes_seq().len() == 0,
            r.spans_seq().len() == 0,
    {
        BVHTree { nodes: Vec::new(), spans: Ghost(Seq::empty()) }
    }
}

impl BVHTree {
    /// The flat node array.
    pub closed spec fn nodes_seq(self) -> Seq<BVHNode> {
        self.nodes@
    }

    /// The primitive range each node covers.
    pub closed spec fn spans_seq(self) -> Seq<(int, int)> {
        self.spans@
    }

    pub open spec fn node_count(self) -> int {
        self.nodes_seq().len() as int
    }

    pub open spec fn span_of(self, i: int) -> (int, int) {
        self.spans_seq()[i]
    }

    /// The forest is well-formed over `prims`.
    pub open spec fn wf<T: BVHPrimitive>(self, prims: Seq<T>) -> bool {
        wf_all(self.nodes_seq(), self.spans_seq(), prims)
    }

    pub fn nodes(&self) -> (r: &Vec<BVHNode>)
        ensures
            r@ == self.nodes_seq(),
    {
        &self.nodes
    }

    /// Build a BVH over `primitives[start..end]`, append its nodes to the
    /// forest and return the index of its root.
    ///
    /// The slice is reordered in place, but only inside `[start, end)` and
    /// only by a permutation; the range must not overlap any range already
    /// covered by an earlier tree of the forest. The root node keeps the
    /// exact bounding box of the range. At most `2m - 1` nodes are added
    /// for `m` primitives (a binary forest over at most `m` leaves), which
    /// is what the index headroom required below covers. A node deeper than
    /// [`MAX_DEPTH`] is never subdivided: it silently stays a leaf.
    pub fn append<T: BVHPrimitive>(
        &mut self,
        primitives: &mut Vec<T>,
        start: u32,
        end: u32,
    ) -> (root: u32)
        requires
            old(self).wf::<T>(old(primitives)@),
            start < end,
            end <= old(primitives).len() <= u32::MAX,
            forall|j: int| start <= j < end ==> prim_ok(#[trigger] old(primitives)@[j]),
            forall|i: int|
                0 <= i < old(self).node_count() && (
                #[trigger] old(self).nodes_seq()[i]).spec_is_leaf() ==> old(self).spans_seq()[i].1
                    <= start as int || end as int <= old(self).spans_seq()[i].0,
            old(self).node_count() + 2 * ((end - start) as int) <= u32::MAX as int,
        ensures
            final(self).wf::<T>(final(primitives)@),
            root == old(self).node_count(),
            old(self).node_count() < final(self).node_count() <= old(self).node_count() + 2 * ((end
                - start) as int) - 1,
            final(self).nodes_seq().subrange(0, root as int) == old(self).nodes_seq(),
            final(self).spans_seq().subrange(0, root as int) == old(self).spans_seq(),
            final(self).span_of(root as int) == (start as int, end as int),
            final(self).nodes_seq()[root as int].min == range_aabb(
                old(primitives)@,
                start as int,
                end as int,
            ).0,
            final(self).nodes_seq()[root as int].max == range_aabb(
                old(primitives)@,
                start as int,
                end as int,
            ).1,
            permuted_in_range(old(primitives)@, final(primitives)@, start as int, end as int),
            forall|j: int| start <= j < end ==> prim_ok(#[trigger] final(primitives)@[j]),
            forall|i: int|
                root <= i < final(self).node_count() ==> start as int <= (
                #[trigger] final(self).spans_seq()[i]).0 && final(self).spans_seq()[i].1
                    <= end as int,
            end - start == 1 ==> final(self).node_count() == old(self).node_count() + 1,
            end - start == 2 ==> final(self).node_count() == old(self).node_count() + 1
                || final(self).node_count() == old(self).node_count() + 3,
            end - start == 2 ==> (final(self).node_count() == old(self).node_count() + 3
                <==> pair_split_better_at(old(primitives)@, start as int)),
    {
        let ghost olen = old(self).nodes@.len() as int;
        let ghost oprims = old(primitives)@;
        let ghost onodes = old(self).nodes@;
        let ghost ospans = old(self).spans@;
        let ghost m = (end - start) as int;

        let root_index = self.nodes.len() as u32;
        let root = new_leaf(primitives, start, end);
        self.nodes.push(root);
        proof {
            self.spans@ = self.spans@.push((start as int, end as int));
        }
        let mut stack: Vec<(u32, u32)> = Vec::new();
        stack.push((0u32, root_index));
        proof {
            assert(self.nodes@.subrange(0, olen) =~= onodes);
            assert(self.spans@.subrange(0, olen) =~= ospans);
            assert forall|i: int| 0 <= i < self.nodes@.len() implies #[trigger] node_ok(
                self.nodes@,
                self.spans@,
                primitives@,
                i,
            ) by {
                if i < olen {
                    assert(node_ok(onodes, ospans, oprims, i));
                }
            }
            lemma_stack_measure_push(Seq::empty(), self.spans@, (0u32, root_index));
            assert(primitives@.subrange(start as int, end as int).to_multiset() =~= oprims.subrange(
                start as int,
                end as int,
            ).to_multiset());
        }

        while stack.len() > 0
            invariant
                wf_all(self.nodes@, self.spans@, primitives@),
                olen == onodes.len(),
                olen == ospans.len(),
                0 <= start < end <= primitives@.len() <= u32::MAX,
                m == end - start,
                olen + 2 * m <= u32::MAX as int,
                olen < self.nodes@.len(),
                self.nodes@.subrange(0, olen) == onodes,
                self.spans@.subrange(0, olen) == ospans,
                root_index as int == olen,
                self.spans@[olen] == (start as int, end as int),
                self.nodes@[olen].min == range_aabb(oprims, start as int, end as int).0,
                self.nodes@[olen].max == range_aabb(oprims, start as int, end as int).1,
                permuted_in_range(oprims, primitives@, start as int, end as int),
                forall|j: int| start <= j < end ==> prim_ok(#[trigger] primitives@[j]),
                forall|i: int|
                    olen <= i < self.nodes@.len() ==> start as int <= (
                    #[trigger] self.spans@[i]).0 && self.spans@[i].1 <= end as int,
                forall|k: int|
                    0 <= k < stack@.len() ==> olen <= (#[trigger] stack@[k]).1
                        < self.nodes@.len() && self.nodes@[stack@[k].1 as int].spec_is_leaf(),
                forall|k1: int, k2: int|
                    0 <= k1 < stack@.len() && 0 <= k2 < stack@.len() && k1 != k2 ==> (
                    #[trigger] stack@[k1]).1 != (#[trigger] stack@[k2]).1,
                self.nodes@.len() + stack_measure(stack@, self.spans@) - stack@.len() <= olen + 2
                    * m - 1,
                m == 1 ==> self.nodes@.len() == olen + 1,
                m == 2 ==> (self.nodes@.len() == olen + 1 && stack@ =~= seq![
                    (0u32, root_index),
                ] && primitives@ == oprims) || (self.nodes@.len() == olen + 3
                    && pair_split_better_at(oprims, start as int) && forall|k: int|
                    0 <= k < stack@.len() ==> (#[trigger] self.spans@[stack@[k].1 as int]).1
                        - self.spans@[stack@[k].1 as int].0 <= 1) || (self.nodes@.len() == olen + 1
                    && stack@.len() == 0 && !pair_split_better_at(oprims, start as int)),
            decreases stack_measure(stack@, self.spans@),
        {
            proof {
                lemma_stack_entries_nonempty(stack@, self.nodes@, self.spans@, primitives@);
            }
            let ghost stack_before = stack@;
            let entry = stack.pop().unwrap();
            let depth = entry.0;
            let ni = entry.1;
            proof {
                assert(stack_before[stack_before.len() - 1] == entry);
                assert(stack@ =~= stack_before.drop_last());
                assert(forall|k: int|
                    0 <= k < stack@.len() ==> #[trigger] stack@[k] == stack_before[k]);
                lemma_stack_entries_nonempty(stack@, self.nodes@, self.spans@, primitives@);
                assert(node_ok(self.nodes@, self.spans@, primitives@, ni as int));
                assert(stack_measure(stack_before, self.spans@) == stack_measure(
                    stack@,
                    self.spans@,
                ) + 2 * (self.spans@[ni as int].1 - self.spans@[ni as int].0) - 1);
            }
            if depth >= MAX_DEPTH {
                continue;
            }
            let node = self.nodes[ni as usize];
            let ghost prims0 = primitives@;
            let ghost nlo = self.spans@[ni as int].0;
            let ghost nhi = self.spans@[ni as int].1;
            let result = split_node(primitives, &node);
            proof {
                // Leaves other than `ni` cover ranges disjoint from the
                // reordered one, so their enclosure claims carry over; inner
                // nodes never mention primitives.
                lemma_permuted_compose(
                    oprims,
                    prims0,
                    primitives@,
                    start as int,
                    end as int,
                    nlo,
                    nhi,
                );
                assert forall|i: int| 0 <= i < self.nodes@.len() implies #[trigger] node_ok(
                    self.nodes@,
                    self.spans@,
                    primitives@,
                    i,
                ) by {
                    assert(node_ok(self.nodes@, self.spans@, prims0, i));
                    let n = self.nodes@[i];
                    if n.spec_is_leaf() && i != ni as int {
                        assert(self.spans@[i].1 <= nlo || nhi <= self.spans@[i].0);
                        assert(forall|j: int|
                            self.spans@[i].0 <= j < self.spans@[i].1 ==> #[trigger] primitives@[j]
                                == prims0[j]);
                    }
                }
            }
            match result {
                None => {},
                Some(pair) => {
                    let l = pair.0;
                    let r = pair.1;
                    proof {
                        lemma_stack_entries_nonempty(
                            stack@,
                            self.nodes@,
                            self.spans@,
                            primitives@,
                        );
                    }
                    let left_index = self.nodes.len() as u32;
                    let right_index = left_index + 1;
                    let ghost nodes0 = self.nodes@;
                    let ghost spans0 = self.spans@;
                    let inner = BVHNode { min: node.min, start: left_index, max: node.max, end: 0 };
                    self.nodes[ni as usize] = inner;
                    self.nodes.push(l);
                    self.nodes.push(r);
                    proof {
                        self.spans@ = self.spans@.push((l.start as int, l.end as int)).push(
                            (r.start as int, r.end as int),
                        );
                    }
                    stack.push((depth + 1, left_index));
                    stack.push((depth + 1, right_index));
                    proof {
                        let ghost stack_mid = stack@.drop_last();
                        assert(stack_mid =~= stack_before.drop_last().push(
                            ((depth + 1) as u32, left_index),
                        ));
                        assert(self.nodes@.subrange(0, olen) =~= onodes);
                        assert(self.spans@.subrange(0, olen) =~= ospans);
                        // Each node is still well-formed: `ni` became inner
                        // with the two new leaves as children; everything
                        // else is untouched.
                        assert forall|i: int| 0 <= i < self.nodes@.len() implies #[trigger] node_ok(
                            self.nodes@,
                            self.spans@,
                            primitives@,
                            i,
                        ) by {
                            if i < nodes0.len() && i != ni as int {
                                assert(node_ok(nodes0, spans0, primitives@, i));
                                let n = nodes0[i];
                                if !n.spec_is_leaf() {
                                    assert(self.nodes@[n.start as int].min == nodes0[n.start as int].min
                                        && self.nodes@[n.start as int].max == nodes0[n.start as int].max);
                                }
                            } else if i == ni as int {
                                assert(node_ok(nodes0, spans0, primitives@, ni as int));
                            } else if i == left_index as int {
                                assert(self.nodes@[i] == l);
                            } else {
                                assert(i == right_index as int);
                                assert(self.nodes@[i] == r);
                            }
                        }
                        // Leaf ranges stay pairwise disjoint: the two new
                        // leaves split the popped leaf's range, which was
                        // disjoint from every other leaf's.
                        assert forall|i: int, k: int|
                            0 <= i < self.nodes@.len() && 0 <= k < self.nodes@.len() && i != k && (
                            #[trigger] self.nodes@[i]).spec_is_leaf() && (
                            #[trigger] self.nodes@[k]).spec_is_leaf() implies self.spans@[i].1
                            <= self.spans@[k].0 || self.spans@[k].1 <= self.spans@[i].0 by {
                            if i < nodes0.len() && k < nodes0.len() {
                                assert(leaf_spans_disjoint(nodes0, spans0));
                            } else {
                                if i >= nodes0.len() && k < nodes0.len() {
                                    assert(nodes0[k].spec_is_leaf());
                                    assert(spans0[k].1 <= nlo || nhi <= spans0[k].0);
                                } else if k >= nodes0.len() && i < nodes0.len() {
                                    assert(nodes0[i].spec_is_leaf());
                                    assert(spans0[i].1 <= nlo || nhi <= spans0[i].0);
                                }
                            }
                        }
                        // Measure bookkeeping for the conserved quantity
                        // `nodes + 2 * measure`.
                        lemma_stack_measure_extend(
                            stack_before.drop_last(),
                            spans0,
                            self.spans@,
                        );
                        lemma_stack_measure_push(
                            stack_before.drop_last(),
                            self.spans@,
                            ((depth + 1) as u32, left_index),
                        );
                        lemma_stack_measure_push(
                            stack_mid,
                            self.spans@,
                            ((depth + 1) as u32, right_index),
                        );
                    }
                },
            }
        }
        proof {
            assert(stack_measure(stack@, self.spans@) == 0);
        }
        root_index
    }
}

/// Every node's box encloses every primitive of the range it covers: for a
/// well-formed forest, a node with span `[lo, hi)` encloses `prims[j]` for
/// every `lo <= j < hi`, leaves directly and inner nodes through their
/// children's boxes.
pub proof fn lemma_node_encloses_covered<T: BVHPrimitive>(
    nodes: Seq<BVHNode>,
    spans: Seq<(int, int)>,
    prims: Seq<T>,
    i: int,
    j: int,
)
    requires
        wf_all(nodes, spans, prims),
        0 <= i < nodes.len(),
        spans[i].0 <= j < spans[i].1,
    ensures
        enclosed(prims[j], nodes[i]),
    decreases spans[i].1 - spans[i].0,
{
    assert(node_ok(nodes, spans, prims, i));
    let n = nodes[i];
    if !n.spec_is_leaf() {
        let l = n.start as int;
        assert(node_ok(nodes, spans, prims, l));
        assert(node_ok(nodes, spans, prims, l + 1));
        if j < spans[l].1 {
            lemma_node_encloses_covered(nodes, spans, prims, l, j);
        } else {
            lemma_node_encloses_covered(nodes, spans, prims, l + 1, j);
        }
    }
}

/// The two subtrees of an inner node cover the parent's range exactly: the
/// left child's span starts where the parent's does, the right child's ends
/// where the parent's does, they meet at one point, and both are non-empty —
/// the union is the parent's range and they do not overlap.
pub proof fn lemma_children_partition<T: BVHPrimitive>(
    nodes: Seq<BVHNode>,
    spans: Seq<(int, int)>,
    prims: Seq<T>,
    i: int,
)
    requires
        wf_all(nodes, spans, prims),
        0 <= i < nodes.len(),
        !nodes[i].spec_is_leaf(),
    ensures
        i < nodes[i].start as int,
        nodes[i].start as int + 1 < nodes.len(),
        spans[nodes[i].start as int].0 == spans[i].0,
        spans[nodes[i].start as int].1 == spans[nodes[i].start as int + 1].0,
        spans[nodes[i].start as int + 1].1 == spans[i].1,
        spans[i].0 < spans[nodes[i].start as int].1 < spans[i].1,
{
    assert(node_ok(nodes, spans, prims, i));
}

/// Every leaf of a well-formed forest covers a non-empty range, and its
/// stored `[start, end)` is exactly the range recorded for it.
pub proof fn lemma_leaf_range<T: BVHPrimitive>(
    nodes: Seq<BVHNode>,
    spans: Seq<(int, int)>,
    prims: Seq<T>,
    i: int,
)
    requires
        wf_all(nodes, spans, prims),
        0 <= i < nodes.len(),
        nodes[i].spec_is_leaf(),
    ensures
        nodes[i].start < nodes[i].end,
        nodes[i].end <= prims.len(),
        spans[i] == (nodes[i].start as int, nodes[i].end as int),
{
    assert(node_ok(nodes, spans, prims, i));
}

/// Build a fresh single-tree BVH over `primitives[start..end]`.
pub fn build_bvh<T: BVHPrimitive>(primitives: &mut Vec<T>, start: u32, end: u32) -> (tree: BVHTree)
    requires
        start < end,
        end <= old(primitives).len() <= u32::MAX,
        forall|j: int| start <= j < end ==> prim_ok(#[trigger] old(primitives)@[j]),
        2 * ((end - start) as int) <= u32::MAX as int,
    ensures
        tree.wf::<T>(final(primitives)@),
        tree.spans_seq().len() == tree.node_count(),
        0 < tree.node_count() <= 2 * ((end - start) as int) - 1,
        tree.span_of(0) == (start as int, end as int),
        tree.nodes_seq()[0].min == range_aabb(old(primitives)@, start as int, end as int).0,
        tree.nodes_seq()[0].max == range_aabb(old(primitives)@, start as int, end as int).1,
        permuted_in_range(old(primitives)@, final(primitives)@, start as int, end as int),
        forall|j: int| start <= j < end ==> prim_ok(#[trigger] final(primitives)@[j]),
        forall|i: int|
            0 <= i < tree.node_count() ==> start as int <= (#[trigger] tree.spans_seq()[i]).0
                && tree.spans_seq()[i].1 <= end as int,
        end - start == 1 ==> tree.node_count() == 1,
        end - start == 2 ==> tree.node_count() == 1 || tree.node_count() == 3,
        end - start == 2 ==> (tree.node_count() == 3 <==> pair_split_better_at(
            old(primitives)@,
            start as int,
        )),
{
    let mut tree = BVHTree::default();
    tree.append(primitives, start, end);
    tree
}

} // verus!
