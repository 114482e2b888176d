//! Flat scene model and acceleration-structure assembly.
//!
//! A [`Scene`] holds the parsed scene as plain data: fixed-point vertex
//! positions, a global index buffer, the unique geometries' index ranges and
//! the scene-graph primitives (geometry handle, transform, material). The
//! host program feeds it the attribute streams a container parser produced;
//! ingestion validates them and keeps the geometry ranges contiguous.
//! [`SceneAccel::from_scene`] then builds one BLAS per unique geometry in a
//! shared node buffer, approximates each instance's world-space bounds from
//! the 8 corners of its BLAS root box, and builds a TLAS over the instances.

use vstd::prelude::*;

verus! {

use crate::bvh::{
    build_bvh, build_triangle_cache, flatten_triangle_list, lemma_node_encloses_covered,
    lemma_permuted_element_source, permuted_in_range, prim_ok, spec_triangle_cache, BVHPrimitive,
    BVHTree, Triangle,
};
use crate::geom::{corner_fold_max, corner_fold_min, world_bounds, Mat34i, Vec3i, LOCAL_LIMIT};
use vstd::arithmetic::div_mod::lemma_div_multiples_vanish;

/// IEEE 754 single-precision bit pattern of one; material scalars travel
/// through the scene model as opaque bit patterns.
pub const F32_ONE_BITS: u32 = 0x3F80_0000;

/// Why a scene could not be ingested.
#[derive(Clone, Debug, PartialEq, Eq)]
pub enum MeshError {
    /// The container parser itself failed; carries its message verbatim.
    Gltf(String),
    MissingPositions,
    MissingNormals,
    MissingTexCoords,
    MissingIndices,
    NotTriangleList,
    FailedTangentGeneration,
}

impl MeshError {
    /// A human-readable description.
    pub fn message(&self) -> (r: &str)
        ensures
            self matches MeshError::Gltf(s) ==> r@ == s@,
    {
        match self {
            MeshError::Gltf(s) => s.as_str(),
            MeshError::MissingPositions => "Missing positions",
            MeshError::MissingNormals => "Missing normals",
            MeshError::MissingTexCoords => "Missing texcoords",
            MeshError::MissingIndices => "Missing indices",
            MeshError::NotTriangleList => "Not a triangle list",
            MeshError::FailedTangentGeneration => "Failed to generate tangents",
        }
    }
}

/// A unique geometry: a half-open range of the global index buffer. The
/// triangle count is `(end - start) / 3`.
#[derive(Clone, Copy, PartialEq, Eq, Structural, Debug)]
pub struct Geometry {
    pub start: u32,
    pub end: u32,
}

/// A scene-graph leaf: a geometry handle, a local-to-world transform and
/// material parameters (color scalars as 32-bit float bit patterns).
#[derive(Clone, Copy, Debug)]
pub struct Primitive {
    pub geometry: u32,
    pub local_to_world: Mat34i,
    pub color_bits: [u32; 4],
    pub roughness_bits: u32,
    pub metallic_bits: u32,
    pub emissive_bits: u32,
}

/// The parsed scene as flat plain data.
pub struct Scene {
    pub positions: Vec<Vec3i>,
    pub indices: Vec<u32>,
    pub geometries: Vec<Geometry>,
    pub primitives: Vec<Primitive>,
}

impl Scene {
    /// The geometry ranges are contiguous from zero, 3-aligned, and end at
    /// the index buffer's length; indices are in bounds; positions are in
    /// the local coordinate range; primitives reference real geometries with
    /// well-bounded transforms.
    pub open spec fn wf(self) -> bool {
        &&& self.positions@.len() <= u32::MAX
        &&& self.indices@.len() <= u32::MAX
        &&& forall|v: int|
            0 <= v < self.positions@.len() ==> (#[trigger] self.positions@[v]).within(
                LOCAL_LIMIT as int,
            )
        &&& forall|k: int|
            0 <= k < self.indices@.len() ==> (#[trigger] self.indices@[k]) < self.positions@.len()
        &&& forall|g: int|
            0 <= g < self.geometries@.len() ==> {
                let geo = #[trigger] self.geometries@[g];
                &&& geo.start as int == if g == 0 {
                    0int
                } else {
                    self.geometries@[g - 1].end as int
                }
                &&& geo.start <= geo.end
                &&& geo.start % 3 == 0
                &&& geo.end % 3 == 0
            }
        &&& self.geometries@.len() > 0 ==> self.geometries@[self.geometries@.len() - 1].end as int
            == self.indices@.len()
        &&& self.geometries@.len() == 0 ==> self.indices@.len() == 0
        &&& forall|p: int|
            0 <= p < self.primitives@.len() ==> (#[trigger] self.primitives@[p]).geometry
                < self.geometries@.len() && self.primitives@[p].local_to_world.mat_ok()
    }

    /// An empty scene.
    pub fn new() -> (r: Scene)
        ensures
            r.wf(),
            r.positions@.len() == 0,
            r.indices@.len() == 0,
            r.geometries@.len() == 0,
            r.primitives@.len() == 0,
    {
        Scene { positions: Vec::new(), indices: Vec::new(), geometries: Vec::new(), primitives: Vec::new() }
    }

    /// Ingest one mesh primitive's attribute streams as a new unique
    /// geometry and return its handle.
    ///
    /// The checks mirror the order a container parser surfaces them in: a
    /// non-triangle-list topology is rejected first, then absent positions,
    /// normals, texcoords and indices, each with its own error; nothing is
    /// changed on an error. On success the positions are appended, every
    /// index is offset by the previous vertex count, and the new geometry's
    /// range covers exactly the appended indices.
    pub fn add_geometry(
        &mut self,
        is_triangle_list: bool,
        positions: Option<Vec<Vec3i>>,
        has_normals: bool,
        has_texcoords: bool,
        indices: Option<Vec<u32>>,
    ) -> (r: Result<u32, MeshError>)
        requires
            old(self).wf(),
            positions matches Some(p) ==> forall|v: int|
                0 <= v < p@.len() ==> (#[trigger] p@[v]).within(LOCAL_LIMIT as int),
            indices matches Some(ix) ==> {
                &&& ix@.len() % 3 == 0
                &&& (positions matches Some(p) ==> forall|k: int|
                    0 <= k < ix@.len() ==> (#[trigger] ix@[k]) < p@.len())
            },
            (positions matches Some(p) ==> old(self).positions@.len() + p@.len()
                <= u32::MAX as int),
            (indices matches Some(ix) ==> old(self).indices@.len() + ix@.len() <= u32::MAX as int),
            old(self).geometries@.len() + 1 <= u32::MAX as int,
        ensures
            final(self).wf(),
            !is_triangle_list ==> r == Result::<u32, MeshError>::Err(MeshError::NotTriangleList),
            is_triangle_list && positions is None ==> r == Result::<u32, MeshError>::Err(
                MeshError::MissingPositions,
            ),
            is_triangle_list && positions is Some && !has_normals ==> r == Result::<
                u32,
                MeshError,
            >::Err(MeshError::MissingNormals),
            is_triangle_list && positions is Some && has_normals && !has_texcoords ==> r
                == Result::<u32, MeshError>::Err(MeshError::MissingTexCoords),
            is_triangle_list && positions is Some && has_normals && has_texcoords && indices
                is None ==> r == Result::<u32, MeshError>::Err(MeshError::MissingIndices),
            r is Err ==> *final(self) == *old(self),
            r matches Ok(g) ==> {
                let p = positions->Some_0;
                let ix = indices->Some_0;
                &&& is_triangle_list && positions is Some && has_normals && has_texcoords
                    && indices is Some
                &&& g as int == old(self).geometries@.len()
                &&& final(self).positions@ == old(self).positions@ + p@
                &&& final(self).indices@.len() == old(self).indices@.len() + ix@.len()
                &&& forall|k: int|
                    0 <= k < old(self).indices@.len() ==> final(self).indices@[k] == old(
                        self,
                    ).indices@[k]
                &&& forall|k: int|
                    0 <= k < ix@.len() ==> final(self).indices@[old(self).indices@.len() + k]
                        as int == ix@[k] + old(self).positions@.len()
                &&& final(self).geometries@ == old(self).geometries@.push(
                    Geometry {
                        start: old(self).indices@.len() as u32,
                        end: (old(self).indices@.len() + ix@.len()) as u32,
                    },
                )
                &&& final(self).primitives@ == old(self).primitives@
            },
    {
        if !is_triangle_list {
            return Err(MeshError::NotTriangleList);
        }
        let mut pos = match positions {
            Some(p) => p,
            None => {
                return Err(MeshError::MissingPositions);
            },
        };
        if !has_normals {
            return Err(MeshError::MissingNormals);
        }
        if !has_texcoords {
            return Err(MeshError::MissingTexCoords);
        }
        let ix = match indices {
            Some(ix) => ix,
            None => {
                return Err(MeshError::MissingIndices);
            },
        };
        let ghost gpos = pos@;
        let ghost oldself = *old(self);
        let start_vertex = self.positions.len() as u32;
        let start_index = self.indices.len() as u32;
        let g = self.geometries.len() as u32;
        self.positions.append(&mut pos);
        let mut k: usize = 0;
        let n = ix.len();
        while k < n
            invariant
                k <= n,
                n == ix@.len(),
                n % 3 == 0,
                oldself.wf(),
                self.indices@.len() == oldself.indices@.len() + k,
                oldself.indices@.len() + n <= u32::MAX as int,
                start_vertex as int == oldself.positions@.len(),
                start_index as int == oldself.indices@.len(),
                gpos.len() + start_vertex as int <= u32::MAX as int,
                forall|j: int| 0 <= j < ix@.len() ==> (#[trigger] ix@[j]) < gpos.len(),
                forall|j: int|
                    0 <= j < oldself.indices@.len() ==> #[trigger] self.indices@[j]
                        == oldself.indices@[j],
                forall|j: int|
                    0 <= j < k ==> #[trigger] self.indices@[oldself.indices@.len() + j] as int
                        == ix@[j] + start_vertex as int,
                self.positions@ == oldself.positions@ + gpos,
                self.geometries@ == oldself.geometries@,
                self.primitives@ == oldself.primitives@,
            decreases n - k,
        {
            let v = ix[k];
            self.indices.push(v + start_vertex);
            k = k + 1;
        }
        self.geometries.push(
            Geometry { start: start_index, end: start_index + (n as u32) },
        );
        proof {
            assert forall|gi: int| 0 <= gi < self.geometries@.len() implies {
                let geo = #[trigger] self.geometries@[gi];
                &&& geo.start as int == if gi == 0 {
                    0int
                } else {
                    self.geometries@[gi - 1].end as int
                }
                &&& geo.start <= geo.end
                &&& geo.start % 3 == 0
                &&& geo.end % 3 == 0
            } by {
                if gi < oldself.geometries@.len() {
                    assert(self.geometries@[gi] == oldself.geometries@[gi]);
                }
            }
            assert forall|v: int| 0 <= v < self.positions@.len() implies (
            #[trigger] self.positions@[v]).within(LOCAL_LIMIT as int) by {
                if v < oldself.positions@.len() {
                    assert(self.positions@[v] == oldself.positions@[v]);
                } else {
                    assert(self.positions@[v] == gpos[v - oldself.positions@.len()]);
                }
            }
            assert forall|ki: int| 0 <= ki < self.indices@.len() implies (
            #[trigger] self.indices@[ki]) < self.positions@.len() by {
                if ki >= oldself.indices@.len() {
                    let j = ki - oldself.indices@.len();
                    assert(self.indices@[oldself.indices@.len() + j] as int == ix@[j]
                        + start_vertex as int);
                }
            }
        }
        Ok(g)
    }

    /// Record one scene-graph primitive referencing geometry `geometry`.
    ///
    /// Materials follow the emissive rule: when any emissive factor is
    /// non-zero (decided by the caller from the float values), the color
    /// becomes the emissive RGB with alpha one and the emissive scalar one;
    /// otherwise the base color with emissive zero.
    pub fn add_primitive(
        &mut self,
        geometry: u32,
        local_to_world: Mat34i,
        is_emissive: bool,
        base_color_bits: [u32; 4],
        emissive_rgb_bits: [u32; 3],
        roughness_bits: u32,
        metallic_bits: u32,
    )
        requires
            old(self).wf(),
            geometry < old(self).geometries@.len(),
            local_to_world.mat_ok(),
        ensures
            final(self).wf(),
            final(self).positions@ == old(self).positions@,
            final(self).indices@ == old(self).indices@,
            final(self).geometries@ == old(self).geometries@,
            final(self).primitives@.len() == old(self).primitives@.len() + 1,
            forall|p: int|
                0 <= p < old(self).primitives@.len() ==> #[trigger] final(self).primitives@[p]
                    == old(self).primitives@[p],
            ({
                let added = final(self).primitives@.last();
                &&& added.geometry == geometry
                &&& added.local_to_world == local_to_world
                &&& added.color_bits@ == if is_emissive {
                    seq![
                        emissive_rgb_bits@[0],
                        emissive_rgb_bits@[1],
                        emissive_rgb_bits@[2],
                        F32_ONE_BITS,
                    ]
                } else {
                    base_color_bits@
                }
                &&& added.emissive_bits == if is_emissive {
                    F32_ONE_BITS
                } else {
                    0u32
                }
                &&& added.roughness_bits == roughness_bits
                &&& added.metallic_bits == metallic_bits
            }),
    {
        let color_bits = if is_emissive {
            [emissive_rgb_bits[0], emissive_rgb_bits[1], emissive_rgb_bits[2], F32_ONE_BITS]
        } else {
            base_color_bits
        };
        let emissive_bits = if is_emissive {
            F32_ONE_BITS
        } else {
            0
        };
        self.primitives.push(
            Primitive {
                geometry,
                local_to_world,
                color_bits,
                roughness_bits,
                metallic_bits,
                emissive_bits,
            },
        );
        proof {
            assert(self.primitives@.last().color_bits@ =~= if is_emissive {
                seq![
                    emissive_rgb_bits@[0],
                    emissive_rgb_bits@[1],
                    emissive_rgb_bits@[2],
                    F32_ONE_BITS,
                ]
            } else {
                base_color_bits@
            });
        }
    }
}

/// A cached triangle usable by the assembler: a valid BVH primitive whose
/// box lies in the local coordinate range and whose vertex indices are in
/// bounds.
pub open spec fn tri_ok(t: Triangle, npos: int) -> bool {
    &&& prim_ok(t)
    &&& t.min.within(LOCAL_LIMIT as int)
    &&& t.max.within(LOCAL_LIMIT as int)
    &&& t.indices@[0] < npos
    &&& t.indices@[1] < npos
    &&& t.indices@[2] < npos
}

/// Reordering part of the triangle list preserves [`tri_ok`] everywhere.
proof fn lemma_tri_ok_preserved(
    before: Seq<Triangle>,
    after: Seq<Triangle>,
    lo: int,
    hi: int,
    npos: int,
)
    requires
        permuted_in_range(before, after, lo, hi),
        0 <= lo < hi <= before.len(),
        forall|t: int| 0 <= t < before.len() ==> tri_ok(#[trigger] before[t], npos),
    ensures
        forall|t: int| 0 <= t < after.len() ==> tri_ok(#[trigger] after[t], npos),
{
    assert forall|t: int| 0 <= t < after.len() implies tri_ok(#[trigger] after[t], npos) by {
        if lo <= t < hi {
            lemma_permuted_element_source(before, after, lo, hi, t);
            let k0 = choose|k0: int| lo <= k0 < hi && after[t] == before[k0];
            assert(tri_ok(before[k0], npos));
        } else {
            assert(after[t] == before[t]);
        }
    }
}

/// Triangle count of a geometry list: the sum of `(end - start) / 3`.
pub open spec fn sum_geometry_triangles(geoms: Seq<Geometry>) -> int
    decreases geoms.len(),
{
    if geoms.len() == 0 {
        0
    } else {
        sum_geometry_triangles(geoms.drop_last()) + (geoms.last().end - geoms.last().start) / 3
    }
}

/// For contiguous 3-aligned ranges starting at zero the sum telescopes to
/// the last range's end over three.
proof fn lemma_sum_geometry_triangles(geoms: Seq<Geometry>)
    requires
        forall|g: int|
            0 <= g < geoms.len() ==> {
                let geo = #[trigger] geoms[g];
                &&& geo.start as int == if g == 0 {
                    0int
                } else {
                    geoms[g - 1].end as int
                }
                &&& geo.start <= geo.end
                &&& geo.start % 3 == 0
                &&& geo.end % 3 == 0
            },
    ensures
        sum_geometry_triangles(geoms) == if geoms.len() == 0 {
            0int
        } else {
            geoms.last().end as int / 3
        },
    decreases geoms.len(),
{
    if geoms.len() > 0 {
        let prefix = geoms.drop_last();
        assert(forall|g: int| 0 <= g < prefix.len() ==> #[trigger] prefix[g] == geoms[g]);
        lemma_sum_geometry_triangles(prefix);
        let s = geoms.last().start as int;
        let e = geoms.last().end as int;
        vstd::arithmetic::div_mod::lemma_fundamental_div_mod(s, 3);
        vstd::arithmetic::div_mod::lemma_fundamental_div_mod(e, 3);
        lemma_div_multiples_vanish(e / 3 - s / 3, 3);
    }
}

/// One scene-graph instance, ready for the TLAS: the root of its geometry's
/// BLAS, the index of the scene primitive it came from, and its world-space
/// bounds approximated by transforming the 8 corners of the BLAS root box.
#[derive(Clone, Copy, Debug)]
pub struct Instance {
    pub node: u32,
    pub prim: u32,
    pub world_min: Vec3i,
    pub world_max: Vec3i,
    pub center: Vec3i,
}

impl BVHPrimitive for Instance {
    open spec fn s_min(&self) -> Vec3i {
        self.world_min
    }

    open spec fn s_max(&self) -> Vec3i {
        self.world_max
    }

    open spec fn s_center(&self) -> Vec3i {
        self.center
    }

    fn min(&self) -> (r: Vec3i) {
        self.world_min
    }

    fn max(&self) -> (r: Vec3i) {
        self.world_max
    }

    fn center(&self) -> (r: Vec3i) {
        self.center
    }
}

/// What holds of every instance, as a function of the (fixed) primitive
/// list, geometry list, BLAS root table and BLAS: it references a real
/// primitive, its node is that primitive's geometry's BLAS root, and its
/// world bounds are exactly the componentwise extremes of the transformed
/// corners of that root's box.
pub open spec fn instance_ok(
    inst: Instance,
    prims: Seq<Primitive>,
    geoms: Seq<Geometry>,
    roots: Seq<u32>,
    blas: BVHTree,
) -> bool {
    &&& (inst.prim as int) < prims.len()
    &&& {
        let p = prims[inst.prim as int];
        let g = p.geometry as int;
        &&& g < geoms.len()
        &&& g < roots.len()
        &&& inst.node == roots[g]
        &&& (inst.node as int) < blas.node_count()
        &&& inst.world_min == corner_fold_min(
            p.local_to_world,
            blas.nodes_seq()[inst.node as int].min,
            blas.nodes_seq()[inst.node as int].max,
            8,
        )
        &&& inst.world_max == corner_fold_max(
            p.local_to_world,
            blas.nodes_seq()[inst.node as int].min,
            blas.nodes_seq()[inst.node as int].max,
            8,
        )
        &&& prim_ok(inst)
    }
}

/// Append the BLAS of one geometry, whose triangles sit in
/// `[start/3, end/3)` of the cache, to the shared forest.
#[verifier::rlimit(100)]
fn append_geometry_blas(
    blas: &mut BVHTree,
    triangles: &mut Vec<Triangle>,
    geo: Geometry,
    Ghost(npos): Ghost<int>,
) -> (root: u32)
    requires
        old(blas).wf::<Triangle>(old(triangles)@),
        old(blas).spans_seq().len() == old(blas).node_count(),
        geo.start % 3 == 0,
        geo.end % 3 == 0,
        geo.start < geo.end,
        geo.end as int / 3 <= old(triangles)@.len(),
        old(triangles)@.len() <= 0x1000_0000,
        forall|t: int|
            0 <= t < old(triangles)@.len() ==> tri_ok(#[trigger] old(triangles)@[t], npos),
        forall|i: int|
            0 <= i < old(blas).node_count() ==> 0 <= (#[trigger] old(blas).spans_seq()[i]).0
                && old(blas).spans_seq()[i].1 <= geo.start as int / 3,
        old(blas).node_count() <= 2 * (geo.start as int / 3),
    ensures
        final(blas).wf::<Triangle>(final(triangles)@),
        final(blas).spans_seq().len() == final(blas).node_count(),
        root as int == old(blas).node_count(),
        (root as int) < final(blas).node_count(),
        final(blas).nodes_seq().subrange(0, root as int) == old(blas).nodes_seq(),
        final(blas).spans_seq().subrange(0, root as int) == old(blas).spans_seq(),
        final(blas).span_of(root as int) == (geo.start as int / 3, geo.end as int / 3),
        final(blas).nodes_seq()[root as int].min.within(LOCAL_LIMIT as int),
        final(blas).nodes_seq()[root as int].max.within(LOCAL_LIMIT as int),
        final(triangles)@.len() == old(triangles)@.len(),
        forall|t: int|
            0 <= t < final(triangles)@.len() ==> tri_ok(#[trigger] final(triangles)@[t], npos),
        permuted_in_range(
            old(triangles)@,
            final(triangles)@,
            geo.start as int / 3,
            geo.end as int / 3,
        ),
        forall|i: int|
            0 <= i < final(blas).node_count() ==> 0 <= (#[trigger] final(blas).spans_seq()[i]).0
                && final(blas).spans_seq()[i].1 <= geo.end as int / 3,
        final(blas).node_count() <= 2 * (geo.end as int / 3),
{
    let tstart = geo.start / 3;
    let tend = geo.end / 3;
    proof {
        vstd::arithmetic::div_mod::lemma_fundamental_div_mod(geo.start as int, 3);
        vstd::arithmetic::div_mod::lemma_fundamental_div_mod(geo.end as int, 3);
    }
    let ghost tris_before = triangles@;
    let root = blas.append(triangles, tstart, tend);
    proof {
        lemma_tri_ok_preserved(
            tris_before,
            triangles@,
            tstart as int,
            tend as int,
            npos,
        );
        crate::bvh::lemma_range_aabb_within(
            tris_before,
            tstart as int,
            tend as int,
            LOCAL_LIMIT as int,
        );
        assert forall|i: int| 0 <= i < blas.node_count() implies 0 <= (
        #[trigger] blas.spans_seq()[i]).0 && blas.spans_seq()[i].1 <= geo.end as int / 3 by {
            if i < root as int {
                assert(blas.spans_seq().subrange(0, root as int)[i] == old(blas).spans_seq()[i]);
            }
        }
    }
    root
}

/// What [`SceneAccel::from_scene`] guarantees of its result, over the
/// scene's (unchanged) primitives, geometries and vertex count.
pub open spec fn accel_wf(accel: SceneAccel, scene: Scene) -> bool {
    &&& accel.blas.wf::<Triangle>(accel.triangles@)
    &&& accel.tlas.wf::<Instance>(accel.instances@)
    &&& accel.triangles@.len() == scene.indices@.len() / 3
    &&& forall|t: int|
        0 <= t < accel.triangles@.len() ==> tri_ok(
            #[trigger] accel.triangles@[t],
            scene.positions@.len() as int,
        )
    &&& accel.blas_roots@.len() == scene.geometries@.len()
    &&& forall|g: int|
        0 <= g < scene.geometries@.len() ==> {
            let root = (#[trigger] accel.blas_roots@[g]) as int;
            &&& root < accel.blas.node_count()
            &&& accel.blas.span_of(root) == (
                scene.geometries@[g].start as int / 3,
                scene.geometries@[g].end as int / 3,
            )
            &&& accel.blas.nodes_seq()[root].min.within(LOCAL_LIMIT as int)
            &&& accel.blas.nodes_seq()[root].max.within(LOCAL_LIMIT as int)
        }
    &&& accel.instances@.len() == scene.primitives@.len()
    &&& forall|k: int|
        0 <= k < accel.instances@.len() ==> instance_ok(
            #[trigger] accel.instances@[k],
            scene.primitives@,
            scene.geometries@,
            accel.blas_roots@,
            accel.blas,
        )
    &&& forall|k1: int, k2: int|
        0 <= k1 < accel.instances@.len() && 0 <= k2 < accel.instances@.len() && k1 != k2 ==> (
        #[trigger] accel.instances@[k1]).prim != (#[trigger] accel.instances@[k2]).prim
    &&& accel.instances@.len() > 0 ==> accel.tlas.node_count() > 0 && accel.tlas.span_of(0) == (
        0int,
        accel.instances@.len() as int,
    ) && forall|k: int|
        0 <= k < accel.instances@.len() ==> accel.tlas.nodes_seq()[0].min.le(
            (#[trigger] accel.instances@[k]).world_min,
        ) && accel.instances@[k].world_max.le(accel.tlas.nodes_seq()[0].max)
}

/// The acceleration structures of one scene: the per-triangle cache (in
/// BLAS order), the shared BLAS node forest with one root per unique
/// geometry, the instances with approximated world bounds, and the TLAS
/// over them.
pub struct SceneAccel {
    pub triangles: Vec<Triangle>,
    pub blas: BVHTree,
    pub blas_roots: Vec<u32>,
    pub instances: Vec<Instance>,
    pub tlas: BVHTree,
}

impl SceneAccel {
    /// Build the acceleration structures: cache the triangles, append one
    /// BLAS per unique geometry (recording its root), approximate each
    /// instance's world bounds from its BLAS root box, build the TLAS over
    /// the instances, and write the triangle reordering back into the
    /// scene's index buffer.
    ///
    /// Within each geometry the resulting triangles are a permutation of
    /// the cache read from the buffers as they came in, so the rewritten
    /// index buffer holds exactly the original triplets, reordered only
    /// inside their geometry's range.
    #[verifier::rlimit(100)]
    pub fn from_scene(scene: &mut Scene) -> (r: SceneAccel)
        requires
            old(scene).wf(),
            1 <= old(scene).primitives@.len() <= 0x100_0000,
            old(scene).indices@.len() <= 0x3000_0000,
            forall|g: int|
                0 <= g < old(scene).geometries@.len() ==> (#[trigger] old(
                    scene,
                ).geometries@[g]).end > old(scene).geometries@[g].start,
        ensures
            final(scene).wf(),
            final(scene).positions@ == old(scene).positions@,
            final(scene).geometries@ == old(scene).geometries@,
            final(scene).primitives@ == old(scene).primitives@,
            final(scene).indices@.len() == old(scene).indices@.len(),
            accel_wf(r, *final(scene)),
            r.triangles@.len() == sum_geometry_triangles(old(scene).geometries@),
            forall|i: int|
                0 <= i < r.triangles@.len() ==> {
                    let t = #[trigger] r.triangles@[i];
                    &&& final(scene).indices@[3 * i] == t.indices@[0]
                    &&& final(scene).indices@[3 * i + 1] == t.indices@[1]
                    &&& final(scene).indices@[3 * i + 2] == t.indices@[2]
                },
            forall|g: int|
                0 <= g < old(scene).geometries@.len() ==> #[trigger] r.triangles@.subrange(
                    old(scene).geometries@[g].start as int / 3,
                    old(scene).geometries@[g].end as int / 3,
                ).to_multiset() == spec_triangle_cache(
                    old(scene).positions@,
                    old(scene).indices@,
                ).subrange(
                    old(scene).geometries@[g].start as int / 3,
                    old(scene).geometries@[g].end as int / 3,
                ).to_multiset(),
    {
        let npos = scene.positions.len();
        let nidx = scene.indices.len();
        let ngeo = scene.geometries.len();
        let nprim = scene.primitives.len();
        let mut triangles = build_triangle_cache(&scene.positions, &scene.indices);
        let ghost cache0 = spec_triangle_cache(scene.positions@, scene.indices@);
        let tcount = triangles.len();
        proof {
            vstd::arithmetic::div_mod::lemma_fundamental_div_mod(nidx as int, 3);
            vstd::arithmetic::div_mod::lemma_mod_bound(nidx as int, 3);
            if ngeo > 0 {
                assert(scene.geometries@[ngeo - 1].end as int == nidx as int);
            }
            lemma_sum_geometry_triangles(scene.geometries@);
        }

        let mut blas = BVHTree::default();
        let mut blas_roots: Vec<u32> = Vec::new();
        let mut g: usize = 0;
        while g < ngeo
            invariant
                scene.wf(),
                npos == scene.positions@.len(),
                nidx == scene.indices@.len(),
                ngeo == scene.geometries@.len(),
                nprim == scene.primitives@.len(),
                nidx <= 0x3000_0000,
                tcount == triangles@.len(),
                tcount == nidx as int / 3,
                forall|gi: int|
                    0 <= gi < ngeo ==> (#[trigger] scene.geometries@[gi]).end
                        > scene.geometries@[gi].start,
                g <= ngeo,
                blas_roots@.len() == g,
                forall|t: int|
                    0 <= t < triangles@.len() ==> tri_ok(#[trigger] triangles@[t], npos as int),
                blas.wf::<Triangle>(triangles@),
                forall|gi: int|
                    0 <= gi < g ==> {
                        let root = (#[trigger] blas_roots@[gi]) as int;
                        &&& root < blas.node_count()
                        &&& blas.span_of(root) == (
                            scene.geometries@[gi].start as int / 3,
                            scene.geometries@[gi].end as int / 3,
                        )
                        &&& blas.nodes_seq()[root].min.within(LOCAL_LIMIT as int)
                        &&& blas.nodes_seq()[root].max.within(LOCAL_LIMIT as int)
                    },
                forall|i: int|
                    0 <= i < blas.node_count() ==> 0 <= (#[trigger] blas.spans_seq()[i]).0
                        && blas.spans_seq()[i].1 <= (if g == 0 {
                        0int
                    } else {
                        scene.geometries@[g - 1].end as int / 3
                    }),
                blas.node_count() <= 2 * (if g == 0 {
                    0int
                } else {
                    scene.geometries@[g - 1].end as int / 3
                }),
                blas.spans_seq().len() == blas.node_count(),
                cache0 == spec_triangle_cache(scene.positions@, scene.indices@),
                cache0.len() == tcount,
                forall|g2: int|
                    0 <= g2 < g ==> #[trigger] triangles@.subrange(
                        scene.geometries@[g2].start as int / 3,
                        scene.geometries@[g2].end as int / 3,
                    ).to_multiset() == cache0.subrange(
                        scene.geometries@[g2].start as int / 3,
                        scene.geometries@[g2].end as int / 3,
                    ).to_multiset(),
                forall|j: int|
                    (if g == 0 {
                        0int
                    } else {
                        scene.geometries@[g - 1].end as int / 3
                    }) <= j < tcount ==> #[trigger] triangles@[j] == cache0[j],
            decreases ngeo - g,
        {
            let geo = scene.geometries[g];
            proof {
                if g as int == ngeo - 1 {
                    assert(geo.end as int == nidx as int);
                } else {
                    // ranges are increasing, so this geometry ends within the buffer
                    assert(scene.geometries@[g + 1].start as int == geo.end as int);
                    lemma_geometry_ends_bounded(scene.geometries@, g as int + 1, nidx as int);
                }
                vstd::arithmetic::div_mod::lemma_div_is_ordered(geo.end as int, nidx as int, 3);
            }
            let ghost roots_before = blas_roots@;
            let ghost blas_before = blas;
            let ghost tris_before2 = triangles@;
            let root = append_geometry_blas(&mut blas, &mut triangles, geo, Ghost(npos as int));
            blas_roots.push(root);
            proof {
                lemma_cache_blocks_preserved(
                    scene.geometries@,
                    tris_before2,
                    triangles@,
                    cache0,
                    g as int,
                    tcount as int,
                );
                assert forall|gi: int| 0 <= gi < g + 1 implies {
                    let r0 = (#[trigger] blas_roots@[gi]) as int;
                    &&& r0 < blas.node_count()
                    &&& blas.span_of(r0) == (
                        scene.geometries@[gi].start as int / 3,
                        scene.geometries@[gi].end as int / 3,
                    )
                    &&& blas.nodes_seq()[r0].min.within(LOCAL_LIMIT as int)
                    &&& blas.nodes_seq()[r0].max.within(LOCAL_LIMIT as int)
                } by {
                    if gi < g {
                        let r0 = blas_roots@[gi] as int;
                        assert(blas_roots@[gi] == roots_before[gi]);
                        assert(r0 < blas_before.node_count());
                        assert(blas.spans_seq().subrange(0, root as int)[r0]
                            == blas_before.spans_seq()[r0]);
                        assert(blas.nodes_seq().subrange(0, root as int)[r0]
                            == blas_before.nodes_seq()[r0]);
                    }
                }
            }
            g = g + 1;
        }

        let mut instances: Vec<Instance> = Vec::new();
        let mut k: usize = 0;
        while k < nprim
            invariant
                scene.wf(),
                npos == scene.positions@.len(),
                ngeo == scene.geometries@.len(),
                nprim == scene.primitives@.len(),
                nprim <= 0x100_0000,
                k <= nprim,
                instances@.len() == k,
                blas_roots@.len() == ngeo,
                tcount == triangles@.len(),
                tcount == nidx as int / 3,
                nidx == scene.indices@.len(),
                cache0.len() == tcount,
                forall|t: int|
                    0 <= t < triangles@.len() ==> tri_ok(#[trigger] triangles@[t], npos as int),
                forall|g2: int|
                    0 <= g2 < ngeo ==> #[trigger] triangles@.subrange(
                        scene.geometries@[g2].start as int / 3,
                        scene.geometries@[g2].end as int / 3,
                    ).to_multiset() == cache0.subrange(
                        scene.geometries@[g2].start as int / 3,
                        scene.geometries@[g2].end as int / 3,
                    ).to_multiset(),
                blas.wf::<Triangle>(triangles@),
                blas.spans_seq().len() == blas.node_count(),
                forall|gi: int|
                    0 <= gi < ngeo ==> {
                        let root = (#[trigger] blas_roots@[gi]) as int;
                        &&& root < blas.node_count()
                        &&& blas.span_of(root) == (
                            scene.geometries@[gi].start as int / 3,
                            scene.geometries@[gi].end as int / 3,
                        )
                        &&& blas.nodes_seq()[root].min.within(LOCAL_LIMIT as int)
                        &&& blas.nodes_seq()[root].max.within(LOCAL_LIMIT as int)
                    },
                forall|j: int|
                    0 <= j < k ==> instance_ok(
                        #[trigger] instances@[j],
                        scene.primitives@,
                        scene.geometries@,
                        blas_roots@,
                        blas,
                    ) && prim_ok(instances@[j]) && instances@[j].prim == j,
            decreases nprim - k,
        {
            let prim = scene.primitives[k];
            let gi = prim.geometry as usize;
            let root = blas_roots[gi];
            let rootnode = blas.nodes()[root as usize];
            let wb = world_bounds(&prim.local_to_world, rootnode.min, rootnode.max);
            let center = Vec3i {
                x: wb.0.x + (wb.1.x - wb.0.x) / 2,
                y: wb.0.y + (wb.1.y - wb.0.y) / 2,
                z: wb.0.z + (wb.1.z - wb.0.z) / 2,
            };
            let inst = Instance {
                node: root,
                prim: k as u32,
                world_min: wb.0,
                world_max: wb.1,
                center,
            };
            instances.push(inst);
            k = k + 1;
        }

        let ghost pre_instances = instances@;
        let tlas = build_bvh(&mut instances, 0, nprim as u32);
        proof {
            assert forall|j: int| 0 <= j < instances@.len() implies tlas.nodes_seq()[0].min.le(
                (#[trigger] instances@[j]).world_min,
            ) && instances@[j].world_max.le(tlas.nodes_seq()[0].max) by {
                lemma_node_encloses_covered(
                    tlas.nodes_seq(),
                    tlas.spans_seq(),
                    instances@,
                    0,
                    j,
                );
            }
            assert forall|j: int| 0 <= j < instances@.len() implies instance_ok(
                #[trigger] instances@[j],
                scene.primitives@,
                scene.geometries@,
                blas_roots@,
                blas,
            ) by {
                lemma_permuted_element_source(pre_instances, instances@, 0, nprim as int, j);
                let k0 = choose|k0: int| 0 <= k0 < nprim && instances@[j] == pre_instances[k0];
                assert(instance_ok(
                    pre_instances[k0],
                    scene.primitives@,
                    scene.geometries@,
                    blas_roots@,
                    blas,
                ));
            }
            // Exactly one instance per scene primitive survives the TLAS
            // reordering: the list before it had pairwise distinct values,
            // a permutation keeps every count, so the reordered list has
            // pairwise distinct values, and equal `prim` fields would force
            // equal values.
            assert(pre_instances.no_duplicates());
            pre_instances.lemma_multiset_has_no_duplicates();
            assert(pre_instances.subrange(0, nprim as int) =~= pre_instances);
            assert(instances@.subrange(0, nprim as int) =~= instances@);
            instances@.lemma_multiset_has_no_duplicates_conv();
            assert forall|k1: int, k2: int|
                0 <= k1 < instances@.len() && 0 <= k2 < instances@.len() && k1 != k2 implies (
            #[trigger] instances@[k1]).prim != (#[trigger] instances@[k2]).prim by {
                lemma_permuted_element_source(pre_instances, instances@, 0, nprim as int, k1);
                lemma_permuted_element_source(pre_instances, instances@, 0, nprim as int, k2);
                let j1 = choose|j1: int| 0 <= j1 < nprim && instances@[k1] == pre_instances[j1];
                let j2 = choose|j2: int| 0 <= j2 < nprim && instances@[k2] == pre_instances[j2];
                assert(pre_instances[j1].prim == j1 && pre_instances[j2].prim == j2);
                if instances@[k1].prim == instances@[k2].prim {
                    assert(j1 == j2);
                    assert(instances@[k1] == instances@[k2]);
                }
            }
        }

        flatten_triangle_list(&triangles, &mut scene.indices);
        proof {
            assert forall|ki: int| 0 <= ki < scene.indices@.len() implies (
            #[trigger] scene.indices@[ki]) < scene.positions@.len() by {
                vstd::arithmetic::div_mod::lemma_fundamental_div_mod(ki, 3);
                let i = ki / 3;
                let off = ki % 3;
                vstd::arithmetic::div_mod::lemma_mod_bound(ki, 3);
                assert(0 <= i < tcount);
                if off == 0 {
                    assert(scene.indices@[3 * i] == triangles@[i].indices@[0]);
                } else if off == 1 {
                    assert(scene.indices@[3 * i + 1] == triangles@[i].indices@[1]);
                } else {
                    assert(scene.indices@[3 * i + 2] == triangles@[i].indices@[2]);
                }
            }
        }
        SceneAccel { triangles, blas, blas_roots, instances, tlas }
    }
}

/// Reordering one geometry's triangle block keeps every block's tie to the
/// pristine cache: blocks already reordered keep their multisets (they sit
/// below the touched range), the touched block was still pristine so its
/// new multiset is the cache's, and the tail beyond it stays pristine.
#[verifier::rlimit(100)]
proof fn lemma_cache_blocks_preserved(
    geoms: Seq<Geometry>,
    before: Seq<Triangle>,
    after: Seq<Triangle>,
    cache0: Seq<Triangle>,
    g: int,
    tcount: int,
)
    requires
        forall|gi: int|
            0 <= gi < geoms.len() ==> {
                let geo = #[trigger] geoms[gi];
                &&& geo.start as int == if gi == 0 {
                    0int
                } else {
                    geoms[gi - 1].end as int
                }
                &&& geo.start <= geo.end
            },
        0 <= g < geoms.len(),
        before.len() == tcount,
        after.len() == tcount,
        cache0.len() == tcount,
        geoms[g].end as int / 3 <= tcount,
        permuted_in_range(before, after, geoms[g].start as int / 3, geoms[g].end as int / 3),
        forall|g2: int|
            0 <= g2 < g ==> #[trigger] before.subrange(
                geoms[g2].start as int / 3,
                geoms[g2].end as int / 3,
            ).to_multiset() == cache0.subrange(
                geoms[g2].start as int / 3,
                geoms[g2].end as int / 3,
            ).to_multiset(),
        forall|j: int| geoms[g].start as int / 3 <= j < tcount ==> #[trigger] before[j] == cache0[j],
    ensures
        forall|g2: int|
            0 <= g2 < g + 1 ==> #[trigger] after.subrange(
                geoms[g2].start as int / 3,
                geoms[g2].end as int / 3,
            ).to_multiset() == cache0.subrange(
                geoms[g2].start as int / 3,
                geoms[g2].end as int / 3,
            ).to_multiset(),
        forall|j: int| geoms[g].end as int / 3 <= j < tcount ==> #[trigger] after[j] == cache0[j],
{
    let ts = geoms[g].start as int / 3;
    let te = geoms[g].end as int / 3;
    assert forall|g2: int| 0 <= g2 < g + 1 implies #[trigger] after.subrange(
        geoms[g2].start as int / 3,
        geoms[g2].end as int / 3,
    ).to_multiset() == cache0.subrange(
        geoms[g2].start as int / 3,
        geoms[g2].end as int / 3,
    ).to_multiset() by {
        let s2 = geoms[g2].start as int / 3;
        let e2 = geoms[g2].end as int / 3;
        if g2 < g {
            lemma_geometry_range_order(geoms, g2, g);
            vstd::arithmetic::div_mod::lemma_div_is_ordered(
                geoms[g2].end as int,
                geoms[g].start as int,
                3,
            );
            vstd::arithmetic::div_mod::lemma_div_is_ordered(
                geoms[g2].start as int,
                geoms[g2].end as int,
                3,
            );
            vstd::arithmetic::div_mod::lemma_div_pos_is_pos(geoms[g2].start as int, 3);
            assert(after.subrange(s2, e2) =~= before.subrange(s2, e2));
        } else {
            assert(before.subrange(ts, te) =~= cache0.subrange(ts, te));
        }
    }
    assert forall|j: int| te <= j < tcount implies #[trigger] after[j] == cache0[j] by {
        vstd::arithmetic::div_mod::lemma_div_is_ordered(
            geoms[g].start as int,
            geoms[g].end as int,
            3,
        );
        assert(after[j] == before[j]);
    }
}

/// In a contiguous geometry list, an earlier range ends at or before a
/// later range starts.
#[verifier::rlimit(60)]
proof fn lemma_geometry_range_order(geoms: Seq<Geometry>, g2: int, g: int)
    requires
        forall|gi: int|
            0 <= gi < geoms.len() ==> {
                let geo = #[trigger] geoms[gi];
                &&& geo.start as int == if gi == 0 {
                    0int
                } else {
                    geoms[gi - 1].end as int
                }
                &&& geo.start <= geo.end
            },
        0 <= g2 < g < geoms.len(),
    ensures
        geoms[g2].end <= geoms[g].start,
    decreases g - g2,
{
    if g2 < g - 1 {
        lemma_geometry_range_order(geoms, g2, g - 1);
    }
}

/// In a contiguous geometry list every range's end is below the end of any
/// later range.
#[verifier::rlimit(60)]
proof fn lemma_geometry_ends_bounded(geoms: Seq<Geometry>, g: int, total: int)
    requires
        forall|gi: int|
            0 <= gi < geoms.len() ==> {
                let geo = #[trigger] geoms[gi];
                &&& geo.start as int == if gi == 0 {
                    0int
                } else {
                    geoms[gi - 1].end as int
                }
                &&& geo.start <= geo.end
            },
        geoms.len() > 0 ==> geoms[geoms.len() - 1].end as int == total,
        0 <= g < geoms.len(),
    ensures
        geoms[g].end as int <= total,
    decreases geoms.len() - g,
{
    if g < geoms.len() - 1 {
        lemma_geometry_ends_bounded(geoms, g + 1, total);
        assert(geoms[g + 1].start as int == geoms[g].end as int);
    }
}

/// An instance's approximated world bounds cover the transform of every
/// point of every triangle its BLAS root encloses: with `t` a triangle the
/// root's range covers and `lmin(t) <= p <= lmax(t)`, the instance's
/// transform maps `p` between `world_min` and `world_max`.
pub proof fn lemma_instance_bounds_cover(
    inst: Instance,
    prims: Seq<Primitive>,
    geoms: Seq<Geometry>,
    roots: Seq<u32>,
    blas: BVHTree,
    triangles: Seq<Triangle>,
    j: int,
    p: Vec3i,
)
    requires
        blas.wf::<Triangle>(triangles),
        instance_ok(inst, prims, geoms, roots, blas),
        blas.nodes_seq()[inst.node as int].min.within(LOCAL_LIMIT as int),
        blas.nodes_seq()[inst.node as int].max.within(LOCAL_LIMIT as int),
        blas.span_of(inst.node as int).0 <= j < blas.span_of(inst.node as int).1,
        prims[inst.prim as int].local_to_world.mat_ok(),
        triangles[j].min.le(p),
        p.le(triangles[j].max),
        p.within(LOCAL_LIMIT as int),
    ensures
        inst.world_min.le(prims[inst.prim as int].local_to_world.spec_transform(p)),
        prims[inst.prim as int].local_to_world.spec_transform(p).le(inst.world_max),
{
    lemma_node_encloses_covered(
        blas.nodes_seq(),
        blas.spans_seq(),
        triangles,
        inst.node as int,
        j,
    );
    crate::geom::lemma_world_bounds_contain(
        prims[inst.prim as int].local_to_world,
        blas.nodes_seq()[inst.node as int].min,
        blas.nodes_seq()[inst.node as int].max,
        p,
    );
}

} // verus!
