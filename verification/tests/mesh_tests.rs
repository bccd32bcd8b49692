//! Meshing scenarios: the filled cube, the transparent boundary, the empty
//! chunk, and determinism of the output.

use vox::chunk::Chunk;
use vox::material::Material;
use vox::mesh::{Culled, Greedy, Vertex};

fn air_neighbors(size: usize) -> Vec<Chunk> {
    let mut v = Vec::new();
    for _ in 0..6 {
        v.push(Chunk::new(size, Material::Air));
    }
    v
}

/// A triangle as an order-insensitive set of three positions plus its
/// normal axis and material.
fn triangles(verts: &[Vertex]) -> Vec<(Vec<(usize, usize, usize)>, u8, Material)> {
    assert_eq!(verts.len() % 3, 0);
    let mut out = Vec::new();
    for t in verts.chunks(3) {
        let mut ps = vec![
            (t[0].x, t[0].y, t[0].z),
            (t[1].x, t[1].y, t[1].z),
            (t[2].x, t[2].y, t[2].z),
        ];
        ps.sort();
        assert_eq!(t[0].norm_axis, t[1].norm_axis);
        assert_eq!(t[0].norm_axis, t[2].norm_axis);
        assert_eq!(t[0].mat, t[1].mat);
        assert_eq!(t[0].mat, t[2].mat);
        out.push((ps, t[0].norm_axis, t[0].mat));
    }
    out
}

#[test]
fn filled_cube_meshes_to_six_merged_quads() {
    let grid = Chunk::new(2, Material::Stone);
    let nbrs = air_neighbors(2);
    let verts = Greedy.mesh(&grid, &nbrs, false);
    // Six faces, one merged 2x2 quad each, two triangles per quad.
    assert_eq!(verts.len(), 36);
    let tris = triangles(&verts);
    assert_eq!(tris.len(), 12);
    for (ps, _axis, mat) in &tris {
        assert_eq!(*mat, Material::Stone);
        // Every triangle must span the full 2x2 extent of its face: its
        // corners sit on the cube's corners, never at 1.
        for (x, y, z) in ps {
            assert!(*x == 0 || *x == 2);
            assert!(*y == 0 || *y == 2);
            assert!(*z == 0 || *z == 2);
        }
    }
    // Two triangles per axis-and-slab combination.
    for axis in 0u8..3 {
        let n = tris.iter().filter(|t| t.1 == axis).count();
        assert_eq!(n, 4);
    }
    // Nothing in the transparent pass.
    let verts_p2 = Greedy.mesh(&grid, &nbrs, true);
    assert_eq!(verts_p2.len(), 0);
}

#[test]
fn transparent_layer_emits_faces_in_both_phases() {
    // x == 0 holds a one-voxel-thick layer of water, x == 1 solid stone.
    let mut grid = Chunk::new(2, Material::Stone);
    for y in 0..2 {
        for z in 0..2 {
            grid.set(0, y, z, Material::Water);
        }
    }
    let nbrs = air_neighbors(2);
    let opaque = Greedy.mesh(&grid, &nbrs, false);
    let transparent = Greedy.mesh(&grid, &nbrs, true);
    // At the internal boundary (slab x == 1) the opaque pass draws the
    // stone's back face and the transparent pass the water's front face.
    let opaque_boundary: Vec<&Vertex> = opaque
        .iter()
        .filter(|v| v.norm_axis == 0 && v.x == 1)
        .collect();
    assert_eq!(opaque_boundary.len(), 6);
    for v in &opaque_boundary {
        assert_eq!(v.mat, Material::Stone);
    }
    let transparent_boundary: Vec<&Vertex> = transparent
        .iter()
        .filter(|v| v.norm_axis == 0 && v.x == 1)
        .collect();
    assert_eq!(transparent_boundary.len(), 6);
    for v in &transparent_boundary {
        assert_eq!(v.mat, Material::Water);
    }
}

#[test]
fn all_air_chunk_meshes_empty() {
    let grid = Chunk::new(2, Material::Air);
    let nbrs = air_neighbors(2);
    assert_eq!(Greedy.mesh(&grid, &nbrs, false).len(), 0);
    assert_eq!(Greedy.mesh(&grid, &nbrs, true).len(), 0);
    assert_eq!(Culled.mesh(&grid, &nbrs, false).len(), 0);
}

#[test]
fn fully_buried_chunk_has_no_faces() {
    // A filled chunk surrounded by filled neighbors culls every face.
    let grid = Chunk::new(2, Material::Stone);
    let mut nbrs = Vec::new();
    for _ in 0..6 {
        nbrs.push(Chunk::new(2, Material::Stone));
    }
    assert_eq!(Greedy.mesh(&grid, &nbrs, false).len(), 0);
}

#[test]
fn greedy_covers_what_culled_covers() {
    // The merged pass draws the same face area as the per-voxel pass: here
    // the unmerged mesher emits one unit quad per face, four per slab side,
    // and the greedy mesher one 2x2 quad per side.
    let grid = Chunk::new(2, Material::Stone);
    let nbrs = air_neighbors(2);
    let culled = Culled.mesh(&grid, &nbrs, false);
    let greedy = Greedy.mesh(&grid, &nbrs, false);
    // 6 faces * 4 unit quads * 6 vertices vs 6 faces * 1 quad * 6 vertices.
    assert_eq!(culled.len(), 144);
    assert_eq!(greedy.len(), 36);
    // Equal total area: 24 unit faces on both sides.
    assert_eq!(culled.len() / 6, 24);
}

#[test]
fn meshing_is_deterministic() {
    let mut a = Chunk::new(4, Material::Air);
    let mut b = Chunk::new(4, Material::Air);
    for x in 0..4 {
        for y in 0..4 {
            for z in 0..4 {
                let m = if (x + y + z) % 3 == 0 {
                    Material::Grass
                } else if z % 2 == 0 {
                    Material::Water
                } else {
                    Material::Air
                };
                a.set(x, y, z, m);
                b.set(x, y, z, m);
            }
        }
    }
    let na = air_neighbors(4);
    let nb = air_neighbors(4);
    let ma1 = Greedy.mesh(&a, &na, false);
    let mb1 = Greedy.mesh(&b, &nb, false);
    assert_eq!(ma1, mb1);
    let ma2 = Greedy.mesh(&a, &na, true);
    let mb2 = Greedy.mesh(&b, &nb, true);
    assert_eq!(ma2, mb2);
}
