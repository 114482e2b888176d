use pathtracer::bvh::{build_bvh, build_triangle_cache, flatten_triangle_list, BVHNode, Triangle};
use pathtracer::geom::Vec3i;

fn v(x: i64, y: i64, z: i64) -> Vec3i {
    Vec3i { x, y, z }
}

/// A triangle modelled as a flat box of unit extent at `x`.
fn tri_at(x: i64, id: u32) -> Triangle {
    Triangle {
        center: v(x * 1024 + 512, 512, 512),
        min: v(x * 1024, 0, 0),
        max: v(x * 1024 + 1024, 1024, 1024),
        indices: [3 * id, 3 * id + 1, 3 * id + 2],
    }
}

fn leaf_count(nodes: &[BVHNode]) -> u32 {
    nodes.iter().filter(|n| n.end > 0).count() as u32
}

fn covered_primitives(nodes: &[BVHNode]) -> u32 {
    nodes.iter().filter(|n| n.end > 0).map(|n| n.end - n.start).sum()
}

/// Structural invariants every finished tree satisfies: leaves are
/// non-empty, inner children exist after the parent, parent boxes contain
/// child boxes, leaf boxes enclose their primitives.
fn check_tree(nodes: &[BVHNode], tris: &[Triangle]) {
    for (i, n) in nodes.iter().enumerate() {
        assert!(n.min.x <= n.max.x && n.min.y <= n.max.y && n.min.z <= n.max.z);
        if n.end > 0 {
            assert!(n.end > n.start, "leaf {} empty", i);
            for j in n.start..n.end {
                let t = &tris[j as usize];
                assert!(n.min.x <= t.min.x && n.min.y <= t.min.y && n.min.z <= t.min.z);
                assert!(t.max.x <= n.max.x && t.max.y <= n.max.y && t.max.z <= n.max.z);
            }
        } else {
            let l = n.start as usize;
            assert!(l > i && l + 1 < nodes.len(), "inner {} children out of place", i);
            for c in [l, l + 1] {
                assert!(n.min.x <= nodes[c].min.x && nodes[c].max.x <= n.max.x);
                assert!(n.min.y <= nodes[c].min.y && nodes[c].max.y <= n.max.y);
                assert!(n.min.z <= nodes[c].min.z && nodes[c].max.z <= n.max.z);
            }
        }
    }
}

#[test]
fn single_triangle_gives_one_leaf() {
    let mut tris = vec![tri_at(0, 0)];
    let tree = build_bvh(&mut tris, 0, 1);
    let nodes = tree.nodes();
    assert_eq!(nodes.len(), 1);
    assert_eq!(nodes[0].start, 0);
    assert_eq!(nodes[0].end, 1);
    assert!(nodes[0].end > 0);
}

#[test]
fn two_identical_triangles_stay_one_leaf() {
    // Splitting cannot reduce the cost of two coincident boxes.
    let mut tris = vec![tri_at(0, 0), tri_at(0, 1)];
    let tree = build_bvh(&mut tris, 0, 2);
    let nodes = tree.nodes();
    assert_eq!(nodes.len(), 1);
    assert_eq!(nodes[0].end - nodes[0].start, 2);
}

#[test]
fn two_distant_triangles_split_into_two_leaves() {
    let mut tris = vec![tri_at(0, 0), tri_at(100, 1)];
    let tree = build_bvh(&mut tris, 0, 2);
    let nodes = tree.nodes();
    assert_eq!(nodes.len(), 3);
    assert_eq!(nodes[0].end, 0, "root must be inner");
    assert_eq!(nodes[0].start, 1, "left child follows the root");
    assert_eq!(nodes[1].end - nodes[1].start, 1);
    assert_eq!(nodes[2].end - nodes[2].start, 1);
    check_tree(nodes, &tris);
}

#[test]
fn eleven_colinear_triangles_use_brute_force_and_split() {
    // 11 primitives is the last brute-force size; the spread along x makes
    // splitting profitable.
    let mut tris: Vec<Triangle> = (0..11).map(|i| tri_at(i as i64, i)).collect();
    let tree = build_bvh(&mut tris, 0, 11);
    let nodes = tree.nodes();
    assert!(nodes.iter().any(|n| n.end == 0), "expected at least one inner node");
    assert_eq!(covered_primitives(nodes), 11);
    check_tree(nodes, &tris);
}

#[test]
fn twelve_colinear_triangles_use_binned_mode_and_stay_valid() {
    let mut tris: Vec<Triangle> = (0..12).map(|i| tri_at(i as i64, i)).collect();
    let tree = build_bvh(&mut tris, 0, 12);
    let nodes = tree.nodes();
    assert!(nodes.iter().any(|n| n.end == 0), "expected at least one inner node");
    assert_eq!(covered_primitives(nodes), 12);
    check_tree(nodes, &tris);
}

#[test]
fn build_permutes_only_inside_the_range() {
    let mut tris: Vec<Triangle> = (0..11).map(|i| tri_at((i * 7 % 11) as i64, i)).collect();
    let before: Vec<[u32; 3]> = tris.iter().map(|t| t.indices).collect();
    let _tree = build_bvh(&mut tris, 2, 9);
    // identity outside [2, 9)
    for j in (0..2).chain(9..11) {
        assert_eq!(tris[j].indices, before[j]);
    }
    // a permutation inside: same multiset of ids
    let mut inside_before: Vec<[u32; 3]> = before[2..9].to_vec();
    let mut inside_after: Vec<[u32; 3]> = tris[2..9].iter().map(|t| t.indices).collect();
    inside_before.sort();
    inside_after.sort();
    assert_eq!(inside_before, inside_after);
}

#[test]
fn forest_of_two_appends_keeps_both_roots() {
    let mut tris: Vec<Triangle> = (0..6).map(|i| tri_at(i as i64, i)).collect();
    let mut tree = pathtracer::bvh::BVHTree::default();
    let r0 = tree.append(&mut tris, 0, 3);
    let r1 = tree.append(&mut tris, 3, 6);
    assert_eq!(r0, 0);
    assert!(r1 > r0);
    let nodes = tree.nodes();
    assert_eq!(covered_primitives(nodes), 6);
    check_tree(nodes, &tris);
}

#[test]
fn triangle_cache_reads_triplets() {
    let verts = vec![v(0, 0, 0), v(1024, 0, 0), v(0, 1024, 0), v(0, 0, 1024)];
    let indices = vec![0u32, 1, 2, 1, 2, 3];
    let tris = build_triangle_cache(&verts, &indices);
    assert_eq!(tris.len(), 2);
    assert_eq!(tris[0].indices, [0, 1, 2]);
    assert_eq!(tris[1].indices, [1, 2, 3]);
    assert_eq!(tris[0].min, v(0, 0, 0));
    assert_eq!(tris[0].max, v(1024, 1024, 0));
    // centroid: componentwise average of the three vertices
    assert_eq!(tris[0].center, v((0 + 1024 + 0) / 3, (0 + 0 + 1024) / 3, 0));
    // box of the second triangle
    assert_eq!(tris[1].min, v(0, 0, 0));
    assert_eq!(tris[1].max, v(1024, 1024, 1024));
}

#[test]
fn flatten_writes_triplets_back() {
    let verts = vec![v(0, 0, 0), v(1024, 0, 0), v(0, 1024, 0), v(0, 0, 1024)];
    let indices = vec![0u32, 1, 2, 1, 2, 3];
    let mut tris = build_triangle_cache(&verts, &indices);
    // reorder by hand, as a BVH build would
    tris.swap(0, 1);
    let mut out = indices.clone();
    flatten_triangle_list(&tris, &mut out);
    for (i, t) in tris.iter().enumerate() {
        assert_eq!(out[3 * i], t.indices[0]);
        assert_eq!(out[3 * i + 1], t.indices[1]);
        assert_eq!(out[3 * i + 2], t.indices[2]);
    }
    assert_eq!(&out[0..3], &[1, 2, 3]);
    assert_eq!(&out[3..6], &[0, 1, 2]);
}
