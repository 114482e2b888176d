use pathtracer::geom::{world_bounds, Mat34i, Vec3i};
use pathtracer::scene::{MeshError, Scene, SceneAccel, F32_ONE_BITS};

fn v(x: i64, y: i64, z: i64) -> Vec3i {
    Vec3i { x, y, z }
}

/// Identity transform in fixed point.
fn identity() -> Mat34i {
    Mat34i {
        m00: 1024,
        m01: 0,
        m02: 0,
        m10: 0,
        m11: 1024,
        m12: 0,
        m20: 0,
        m21: 0,
        m22: 1024,
        t: v(0, 0, 0),
    }
}

/// Rotation by 45 degrees about the y axis (cos = sin = 724/1024).
fn rot45_y() -> Mat34i {
    Mat34i {
        m00: 724,
        m01: 0,
        m02: 724,
        m10: 0,
        m11: 1024,
        m12: 0,
        m20: -724,
        m21: 0,
        m22: 724,
        t: v(0, 0, 0),
    }
}

/// A unit cube centered at the origin: 8 vertices, 12 triangles.
fn cube_streams() -> (Vec<Vec3i>, Vec<u32>) {
    let h = 512i64;  // half extent in fixed point
    let mut positions = Vec::new();
    for i in 0..8i64 {
        positions.push(v(
            if i & 1 == 0 { -h } else { h },
            if i & 2 == 0 { -h } else { h },
            if i & 4 == 0 { -h } else { h },
        ));
    }
    let quads: [[u32; 4]; 6] = [
        [0, 1, 3, 2],
        [4, 5, 7, 6],
        [0, 1, 5, 4],
        [2, 3, 7, 6],
        [0, 2, 6, 4],
        [1, 3, 7, 5],
    ];
    let mut indices = Vec::new();
    for q in quads {
        indices.extend_from_slice(&[q[0], q[1], q[2]]);
        indices.extend_from_slice(&[q[0], q[2], q[3]]);
    }
    (positions, indices)
}

fn cube_scene(transform: Mat34i) -> Scene {
    let mut scene = Scene::new();
    let (positions, indices) = cube_streams();
    let g = scene
        .add_geometry(true, Some(positions), true, true, Some(indices))
        .expect("cube ingests");
    scene.add_primitive(g, transform, false, [0, 0, 0, F32_ONE_BITS], [0, 0, 0], 0, 0);
    scene
}

#[test]
fn rejects_non_triangle_list() {
    let mut scene = Scene::new();
    let (positions, indices) = cube_streams();
    let r = scene.add_geometry(false, Some(positions), true, true, Some(indices));
    assert_eq!(r, Err(MeshError::NotTriangleList));
}

#[test]
fn rejects_missing_attributes_in_order() {
    let (positions, indices) = cube_streams();
    let mut scene = Scene::new();
    let r = scene.add_geometry(true, None, true, true, Some(indices.clone()));
    assert_eq!(r, Err(MeshError::MissingPositions));
    let r = scene.add_geometry(true, Some(positions.clone()), false, true, Some(indices.clone()));
    assert_eq!(r, Err(MeshError::MissingNormals));
    let r = scene.add_geometry(true, Some(positions.clone()), true, false, Some(indices.clone()));
    assert_eq!(r, Err(MeshError::MissingTexCoords));
    let r = scene.add_geometry(true, Some(positions.clone()), true, true, None);
    assert_eq!(r, Err(MeshError::MissingIndices));
    // nothing was ingested by the failures
    assert_eq!(scene.positions.len(), 0);
    assert_eq!(scene.indices.len(), 0);
    assert_eq!(scene.geometries.len(), 0);
}

#[test]
fn error_messages_are_stable() {
    assert_eq!(MeshError::NotTriangleList.message(), "Not a triangle list");
    assert_eq!(MeshError::MissingPositions.message(), "Missing positions");
    assert_eq!(MeshError::Gltf(String::from("bad magic")).message(), "bad magic");
    assert_eq!(
        MeshError::FailedTangentGeneration.message(),
        "Failed to generate tangents"
    );
}

#[test]
fn geometry_ingestion_offsets_indices() {
    let mut scene = Scene::new();
    let (positions, indices) = cube_streams();
    let n = positions.len() as u32;
    let g0 = scene
        .add_geometry(true, Some(positions.clone()), true, true, Some(indices.clone()))
        .unwrap();
    let g1 = scene
        .add_geometry(true, Some(positions), true, true, Some(indices.clone()))
        .unwrap();
    assert_eq!(g0, 0);
    assert_eq!(g1, 1);
    assert_eq!(scene.positions.len() as u32, 2 * n);
    assert_eq!(scene.indices.len(), 2 * indices.len());
    // the second copy's indices point at the second vertex block
    for (k, ix) in indices.iter().enumerate() {
        assert_eq!(scene.indices[indices.len() + k], ix + n);
    }
    assert_eq!(scene.geometries[0].start, 0);
    assert_eq!(scene.geometries[0].end, indices.len() as u32);
    assert_eq!(scene.geometries[1].start, indices.len() as u32);
    assert_eq!(scene.geometries[1].end, 2 * indices.len() as u32);
}

#[test]
fn emissive_material_takes_emissive_color() {
    let mut scene = Scene::new();
    let (positions, indices) = cube_streams();
    let g = scene.add_geometry(true, Some(positions), true, true, Some(indices)).unwrap();
    scene.add_primitive(g, identity(), true, [1, 2, 3, 4], [7, 8, 9], 11, 12);
    scene.add_primitive(g, identity(), false, [1, 2, 3, 4], [7, 8, 9], 11, 12);
    let e = &scene.primitives[0];
    assert_eq!(e.color_bits, [7, 8, 9, F32_ONE_BITS]);
    assert_eq!(e.emissive_bits, F32_ONE_BITS);
    let b = &scene.primitives[1];
    assert_eq!(b.color_bits, [1, 2, 3, 4]);
    assert_eq!(b.emissive_bits, 0);
    assert_eq!(b.roughness_bits, 11);
    assert_eq!(b.metallic_bits, 12);
}

#[test]
fn cube_assembly_counts_and_flattens() {
    let mut scene = cube_scene(identity());
    let accel = SceneAccel::from_scene(&mut scene);
    // total triangle count equals the sum over geometries of range/3
    assert_eq!(accel.triangles.len(), 12);
    assert_eq!(scene.indices.len(), 36);
    // the index buffer now lists the (reordered) triangles' indices
    for (i, t) in accel.triangles.iter().enumerate() {
        assert_eq!(scene.indices[3 * i], t.indices[0]);
        assert_eq!(scene.indices[3 * i + 1], t.indices[1]);
        assert_eq!(scene.indices[3 * i + 2], t.indices[2]);
    }
    assert_eq!(accel.blas_roots.len(), 1);
    assert_eq!(accel.instances.len(), 1);
    // the BLAS root box is the cube's exact bounds
    let root = accel.blas.nodes()[accel.blas_roots[0] as usize];
    assert_eq!(root.min, v(-512, -512, -512));
    assert_eq!(root.max, v(512, 512, 512));
}

#[test]
fn rotated_instance_has_wider_world_bounds() {
    // A unit cube instanced with a 45 degree rotation about y: the world
    // box must reach at least sqrt(2)/2 on x (724 in fixed point).
    let mut scene = cube_scene(rot45_y());
    let accel = SceneAccel::from_scene(&mut scene);
    let inst = &accel.instances[0];
    assert!(inst.world_max.x >= 724, "world_max.x = {}", inst.world_max.x);
    assert!(inst.world_min.x <= -724, "world_min.x = {}", inst.world_min.x);
    // the TLAS leaf for that instance encloses it
    let tlas = accel.tlas.nodes();
    assert_eq!(tlas.len(), 1);
    assert!(tlas[0].max.x >= 724 && tlas[0].min.x <= -724);
    assert!(tlas[0].end > tlas[0].start);
}

#[test]
fn shared_geometry_builds_one_blas_with_two_instances() {
    // two scene-graph primitives referencing the same unique geometry:
    // the BLAS is appended once and both instances carry the same root
    let mut scene = Scene::new();
    let (positions, indices) = cube_streams();
    let g = scene.add_geometry(true, Some(positions), true, true, Some(indices)).unwrap();
    let mut shifted = identity();
    shifted.t = v(2048, 0, 0);
    scene.add_primitive(g, identity(), false, [0; 4], [0; 3], 0, 0);
    scene.add_primitive(g, shifted, false, [0; 4], [0; 3], 0, 0);
    let accel = SceneAccel::from_scene(&mut scene);
    assert_eq!(accel.blas_roots.len(), 1);
    assert_eq!(accel.instances.len(), 2);
    assert!(accel.instances.iter().all(|i| i.node == accel.blas_roots[0]));
    assert_eq!(accel.triangles.len(), 12);
    // the shifted instance's world box sits two units along x
    let shifted_inst = accel.instances.iter().find(|i| {
        let p = &scene.primitives[i.prim as usize];
        p.local_to_world.t.x == 2048
    });
    let inst = shifted_inst.expect("shifted instance present");
    assert_eq!(inst.world_min.x, 2048 - 512);
    assert_eq!(inst.world_max.x, 2048 + 512);
}

#[test]
fn corner_transform_bounds_contain_transformed_points() {
    let m = rot45_y();
    let lmin = v(-512, -512, -512);
    let lmax = v(512, 512, 512);
    let (wmin, wmax) = world_bounds(&m, lmin, lmax);
    // transform a few points of the box and check containment
    for p in [v(0, 0, 0), v(512, 512, 512), v(-512, 0, 256), v(100, -200, 300)] {
        let w = m.transform_point(p);
        assert!(wmin.x <= w.x && w.x <= wmax.x);
        assert!(wmin.y <= w.y && w.y <= wmax.y);
        assert!(wmin.z <= w.z && w.z <= wmax.z);
    }
    assert!(wmax.x >= 724 && wmin.x <= -724);
}
