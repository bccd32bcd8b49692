//! Meshing: turning a chunk and its six neighbors into triangle lists.
//!
//! For every sweep axis and every slab boundary the chunk is culled into a
//! 2D face mask (see `crate::chunk`). Two meshers turn masks into quads:
//! `Culled` emits one unit quad per drawn face; `Greedy` merges runs of
//! equal faces into larger rectangles, first along `u`, then along `v`,
//! consuming every covered cell so nothing is emitted twice. Each quad
//! becomes two triangles (six vertices) with the slab's outward normal.
//!
//! The meshers' contracts are exact: the returned vertex sequence equals a
//! spec-level function of the grids alone, so meshing the same voxel data
//! always yields the same geometry.

use vstd::prelude::*;

use crate::chunk::{axis_coord, slab_mask, Chunk};
use crate::material::Material;

verus! {

/// A mesh vertex: an integer lattice position within the chunk, the sweep
/// axis of the face's outward normal, and the face's material.
#[derive(Clone, Copy, PartialEq, Eq, Structural, Debug)]
pub struct Vertex {
    pub x: usize,
    pub y: usize,
    pub z: usize,
    pub norm_axis: u8,
    pub mat: Material,
}

/// Mathematical model of a vertex.
pub struct VertexModel {
    pub x: int,
    pub y: int,
    pub z: int,
    pub axis: int,
    pub mat: Material,
}

impl View for Vertex {
    type V = VertexModel;

    open spec fn view(&self) -> VertexModel {
        VertexModel {
            x: self.x as int,
            y: self.y as int,
            z: self.z as int,
            axis: self.norm_axis as int,
            mat: self.mat,
        }
    }
}

/// A merged rectangle of faces within one slab: cross-axis extent
/// `[u0, u1) * [v0, v1)`, all of one material.
#[derive(Clone, Copy, PartialEq, Eq, Structural, Debug)]
pub struct Quad {
    pub u0: usize,
    pub v0: usize,
    pub u1: usize,
    pub v1: usize,
    pub mat: Material,
}

/// Mathematical model of a quad.
pub struct QuadModel {
    pub u0: int,
    pub v0: int,
    pub u1: int,
    pub v1: int,
    pub mat: Material,
}

impl View for Quad {
    type V = QuadModel;

    open spec fn view(&self) -> QuadModel {
        QuadModel {
            u0: self.u0 as int,
            v0: self.v0 as int,
            u1: self.u1 as int,
            v1: self.v1 as int,
            mat: self.mat,
        }
    }
}

/// Well-formedness of a 2D face mask: a square of side `size`.
pub open spec fn mask_wf(m: Seq<Seq<Material>>, size: int) -> bool {
    &&& m.len() == size
    &&& forall|u: int| 0 <= u < size ==> #[trigger] m[u].len() == size
}

/// Whether a cell lies inside a quad.
pub open spec fn in_quad(q: QuadModel, u: int, v: int) -> bool {
    q.u0 <= u < q.u1 && q.v0 <= v < q.v1
}

/// The mask with every cell of `q` cleared to `Air`.
pub open spec fn clear_quad(m: Seq<Seq<Material>>, q: QuadModel) -> Seq<Seq<Material>> {
    Seq::new(
        m.len(),
        |u: int|
            Seq::new(
                m[u].len(),
                |v: int|
                    if in_quad(q, u, v) {
                        Material::Air
                    } else {
                        m[u][v]
                    },
            ),
    )
}

/// The end of the run of cells equal to `b` in column direction `u`,
/// starting at `u` within row `v`: the first index in `[u, size]` whose cell
/// differs from `b` (or `size` if the run reaches the edge).
pub open spec fn u_run(m: Seq<Seq<Material>>, b: Material, u: int, v: int, size: int) -> int
    decreases size - u,
{
    if u < 0 || u >= size || m[u][v] != b {
        u
    } else {
        u_run(m, b, u + 1, v, size)
    }
}

/// All cells of row `v` in `[u0, u1)` equal `b`.
pub open spec fn row_all(m: Seq<Seq<Material>>, b: Material, u0: int, u1: int, v: int) -> bool {
    forall|u: int| u0 <= u < u1 ==> m[u][v] == b
}

/// The end of the run of full rows equal to `b` across `[u0, u1)`, starting
/// at row `v`: the first row index in `[v, size]` that does not match.
pub open spec fn v_run(
    m: Seq<Seq<Material>>,
    b: Material,
    u0: int,
    u1: int,
    v: int,
    size: int,
) -> int
    decreases size - v,
{
    if v < 0 || v >= size || !row_all(m, b, u0, u1, v) {
        v
    } else {
        v_run(m, b, u0, u1, v + 1, size)
    }
}

/// The greedy quad anchored at non-air cell `(u, v)`: extend along `u` while
/// cells match, then along `v` while whole rows of the current `u` extent
/// match.
pub open spec fn quad_at(m: Seq<Seq<Material>>, u: int, v: int, size: int) -> QuadModel {
    let b = m[u][v];
    let u1 = u_run(m, b, u + 1, v, size);
    let v1 = v_run(m, b, u, u1, v + 1, size);
    QuadModel { u0: u, v0: v, u1: u1, v1: v1, mat: b }
}

/// The quads of the greedy merge, scanning from cell `(u, v)` onward in
/// row-major order (`u` outer, `v` inner). Every cell a quad covers is
/// cleared before the scan continues, so no face is emitted twice.
pub open spec fn greedy_quads(m: Seq<Seq<Material>>, u: int, v: int, size: int) -> Seq<QuadModel>
    decreases size - u, size + 1 - v,
{
    if size <= 0 || u < 0 || u >= size || v < 0 || v > size {
        Seq::empty()
    } else if v == size {
        greedy_quads(m, u + 1, 0, size)
    } else if m[u][v] == Material::Air {
        greedy_quads(m, u, v + 1, size)
    } else {
        let q = quad_at(m, u, v, size);
        seq![q] + greedy_quads(clear_quad(m, q), u, v + 1, size)
    }
}

/// The quads of the unmerged culling pass, scanning from cell `(u, v)`: one
/// unit quad per non-air cell.
pub open spec fn culled_quads(m: Seq<Seq<Material>>, u: int, v: int, size: int) -> Seq<QuadModel>
    decreases size - u, size + 1 - v,
{
    if size <= 0 || u < 0 || u >= size || v < 0 || v > size {
        Seq::empty()
    } else if v == size {
        culled_quads(m, u + 1, 0, size)
    } else if m[u][v] == Material::Air {
        culled_quads(m, u, v + 1, size)
    } else {
        let q = QuadModel { u0: u, v0: v, u1: u + 1, v1: v + 1, mat: m[u][v] };
        seq![q] + culled_quads(m, u, v + 1, size)
    }
}

/// The model vertex at axis-relative coordinates: `di` along the sweep axis
/// `d`, `(a, b)` across it. The normal points along `d`.
pub open spec fn vert_model(d: int, di: int, a: int, b: int, mat: Material) -> VertexModel {
    let c = axis_coord(d, di, a, b);
    VertexModel { x: c.0, y: c.1, z: c.2, axis: d, mat }
}

/// The six vertices (two triangles, consistent winding) of one quad in slab
/// `di` along axis `d`.
pub open spec fn quad_verts(d: int, di: int, q: QuadModel) -> Seq<VertexModel> {
    seq![
        vert_model(d, di, q.u0, q.v0, q.mat),
        vert_model(d, di, q.u1, q.v0, q.mat),
        vert_model(d, di, q.u1, q.v1, q.mat),
        vert_model(d, di, q.u0, q.v0, q.mat),
        vert_model(d, di, q.u1, q.v1, q.mat),
        vert_model(d, di, q.u0, q.v1, q.mat),
    ]
}

/// The vertices of the first `n` quads of a slab, in order.
pub open spec fn quads_verts_upto(d: int, di: int, qs: Seq<QuadModel>, n: int) -> Seq<VertexModel>
    decreases n,
{
    if n <= 0 {
        Seq::empty()
    } else {
        quads_verts_upto(d, di, qs, n - 1) + quad_verts(d, di, qs[n - 1])
    }
}

/// The vertices of all quads of a slab, in order.
pub open spec fn quads_verts(d: int, di: int, qs: Seq<QuadModel>) -> Seq<VertexModel> {
    quads_verts_upto(d, di, qs, qs.len() as int)
}

/// The views of the six neighbor chunks, in the fixed order
/// -x, +x, -y, +y, -z, +z.
pub open spec fn grid_views(nbrs: Seq<Chunk>) -> Seq<Seq<Seq<Seq<Material>>>> {
    nbrs.map_values(|c: Chunk| c@)
}

/// The greedy quads of slab `i` along axis `d`: the greedy merge of that
/// slab's culled mask.
pub open spec fn slab_quads_greedy(
    g: Seq<Seq<Seq<Material>>>,
    neg: Seq<Seq<Seq<Material>>>,
    pos: Seq<Seq<Seq<Material>>>,
    size: int,
    d: int,
    i: int,
    phase2: bool,
) -> Seq<QuadModel> {
    greedy_quads(slab_mask(g, neg, pos, size, d, i, phase2), 0, 0, size)
}

/// The unmerged quads of slab `i` along axis `d`: one unit quad per culled
/// face.
pub open spec fn slab_quads_culled(
    g: Seq<Seq<Seq<Material>>>,
    neg: Seq<Seq<Seq<Material>>>,
    pos: Seq<Seq<Seq<Material>>>,
    size: int,
    d: int,
    i: int,
    phase2: bool,
) -> Seq<QuadModel> {
    culled_quads(slab_mask(g, neg, pos, size, d, i, phase2), 0, 0, size)
}

/// The vertices of the first `n` slabs of axis `d` under the greedy mesher.
pub open spec fn axis_verts_greedy(
    g: Seq<Seq<Seq<Material>>>,
    neg: Seq<Seq<Seq<Material>>>,
    pos: Seq<Seq<Seq<Material>>>,
    size: int,
    d: int,
    n: int,
    phase2: bool,
) -> Seq<VertexModel>
    decreases n,
{
    if n <= 0 {
        Seq::empty()
    } else {
        axis_verts_greedy(g, neg, pos, size, d, n - 1, phase2) + quads_verts(
            d,
            n - 1,
            slab_quads_greedy(g, neg, pos, size, d, n - 1, phase2),
        )
    }
}

/// The vertices of the first `n` slabs of axis `d` under the unmerged mesher.
pub open spec fn axis_verts_culled(
    g: Seq<Seq<Seq<Material>>>,
    neg: Seq<Seq<Seq<Material>>>,
    pos: Seq<Seq<Seq<Material>>>,
    size: int,
    d: int,
    n: int,
    phase2: bool,
) -> Seq<VertexModel>
    decreases n,
{
    if n <= 0 {
        Seq::empty()
    } else {
        axis_verts_culled(g, neg, pos, size, d, n - 1, phase2) + quads_verts(
            d,
            n - 1,
            slab_quads_culled(g, neg, pos, size, d, n - 1, phase2),
        )
    }
}

/// The vertices of the first `d` axes under the greedy mesher: all
/// `size + 1` slabs of each axis, each consulting its pair of neighbors.
pub open spec fn mesh_prefix_greedy(
    g: Seq<Seq<Seq<Material>>>,
    nbrs: Seq<Seq<Seq<Seq<Material>>>>,
    size: int,
    d: int,
    phase2: bool,
) -> Seq<VertexModel>
    decreases d,
{
    if d <= 0 {
        Seq::empty()
    } else {
        mesh_prefix_greedy(g, nbrs, size, d - 1, phase2) + axis_verts_greedy(
            g,
            nbrs[2 * (d - 1)],
            nbrs[2 * (d - 1) + 1],
            size,
            d - 1,
            size + 1,
            phase2,
        )
    }
}

/// The vertices of the first `d` axes under the unmerged mesher.
pub open spec fn mesh_prefix_culled(
    g: Seq<Seq<Seq<Material>>>,
    nbrs: Seq<Seq<Seq<Seq<Material>>>>,
    size: int,
    d: int,
    phase2: bool,
) -> Seq<VertexModel>
    decreases d,
{
    if d <= 0 {
        Seq::empty()
    } else {
        mesh_prefix_culled(g, nbrs, size, d - 1, phase2) + axis_verts_culled(
            g,
            nbrs[2 * (d - 1)],
            nbrs[2 * (d - 1) + 1],
            size,
            d - 1,
            size + 1,
            phase2,
        )
    }
}

/// The whole greedy mesh of one chunk for one phase: every slab of every
/// axis, culled against the six neighbors, greedily merged, emitted as
/// triangles. Meshing depends on the voxel data alone, so equal grids give
/// equal meshes.
pub open spec fn greedy_mesh_spec(
    g: Seq<Seq<Seq<Material>>>,
    nbrs: Seq<Seq<Seq<Seq<Material>>>>,
    size: int,
    phase2: bool,
) -> Seq<VertexModel> {
    mesh_prefix_greedy(g, nbrs, size, 3, phase2)
}

/// The whole unmerged mesh of one chunk for one phase.
pub open spec fn culled_mesh_spec(
    g: Seq<Seq<Seq<Material>>>,
    nbrs: Seq<Seq<Seq<Seq<Material>>>>,
    size: int,
    phase2: bool,
) -> Seq<VertexModel> {
    mesh_prefix_culled(g, nbrs, size, 3, phase2)
}

/// Well-formed meshing inputs: a well-formed chunk and six well-formed
/// neighbors of the same size, in the fixed order -x, +x, -y, +y, -z, +z.
pub open spec fn mesh_inputs_wf(grid: Chunk, neighbors: Seq<Chunk>) -> bool {
    &&& grid.wf()
    &&& neighbors.len() == 6
    &&& forall|k: int|
        0 <= k < 6 ==> (#[trigger] neighbors[k]).wf() && neighbors[k].spec_size()
            == grid.spec_size()
}

/// Whether all cells of row `v` in `[u0, u1)` of the mask equal `b`.
fn row_match(mask: &Vec<Vec<Material>>, b: Material, u0: usize, u1: usize, v: usize) -> (r: bool)
    requires
        u1 <= mask_view(*mask).len(),
        forall|u: int| 0 <= u < mask_view(*mask).len() ==> v < #[trigger] mask_view(*mask)[u].len(),
    ensures
        r == row_all(mask_view(*mask), b, u0 as int, u1 as int, v as int),
{
    let mut u = u0;
    if u0 >= u1 {
        return true;
    }
    while u < u1
        invariant
            u0 <= u <= u1,
            u1 <= mask_view(*mask).len(),
            forall|i: int|
                0 <= i < mask_view(*mask).len() ==> v < #[trigger] mask_view(*mask)[i].len(),
            forall|i: int| u0 <= i < u ==> mask_view(*mask)[i][v as int] == b,
        decreases u1 - u,
    {
        if mask[u][v] != b {
            proof {
                assert(mask_view(*mask)[u as int][v as int] != b);
            }
            return false;
        }
        u += 1;
    }
    true
}

/// The view of an executable 2D mask (same shape as `crate::chunk::mask_view`).
pub open spec fn mask_view(m: Vec<Vec<Material>>) -> Seq<Seq<Material>> {
    m@.map_values(|row: Vec<Material>| row@)
}

/// Greedily merge one culled slab mask into quads. The result is exactly the
/// spec-level greedy merge of the given mask.
pub fn greedy_merge_slab(mask: Vec<Vec<Material>>, size: usize) -> (r: Vec<Quad>)
    requires
        mask_wf(mask_view(mask), size as int),
    ensures
        r@.map_values(|q: Quad| q@) == greedy_quads(mask_view(mask), 0, 0, size as int),
{
    let ghost m0 = mask_view(mask);
    let mut mask = mask;
    let mut quads: Vec<Quad> = Vec::new();
    if size == 0 {
        proof {
            assert(greedy_quads(m0, 0, 0, 0) == Seq::<QuadModel>::empty());
            assert(quads@.map_values(|q: Quad| q@) =~= greedy_quads(m0, 0, 0, 0));
        }
        return quads;
    }
    proof {
        assert(quads@.map_values(|q: Quad| q@) + greedy_quads(m0, 0, 0, size as int) =~= greedy_quads(
            m0,
            0,
            0,
            size as int,
        ));
    }
    for u in 0..size
        invariant
            size >= 1,
            mask_wf(mask_view(mask), size as int),
            greedy_quads(m0, 0, 0, size as int) == quads@.map_values(|q: Quad| q@)
                + greedy_quads(mask_view(mask), u as int, 0, size as int),
    {
        for v in 0..size
            invariant
                size >= 1,
                u < size,
                mask_wf(mask_view(mask), size as int),
                greedy_quads(m0, 0, 0, size as int) == quads@.map_values(|q: Quad| q@)
                    + greedy_quads(mask_view(mask), u as int, v as int, size as int),
        {
            let b = mask[u][v];
            proof {
                assert(mask_view(mask)[u as int][v as int] == b);
            }
            if b != Material::Air {
                let ghost mb = mask_view(mask);
                // Extend along u while cells match.
                let mut u1 = u + 1;
                while u1 < size && mask[u1][v] == b
                    invariant
                        u + 1 <= u1 <= size,
                        size == mask_view(mask).len(),
                        mask_wf(mask_view(mask), size as int),
                        u_run(mask_view(mask), b, u as int + 1, v as int, size as int) == u_run(
                            mask_view(mask),
                            b,
                            u1 as int,
                            v as int,
                            size as int,
                        ),
                        mask_view(mask) == mb,
                        v < size,
                    decreases size - u1,
                {
                    proof {
                        assert(mask_view(mask)[u1 as int][v as int] == b);
                    }
                    u1 += 1;
                }
                proof {
                    if u1 < size {
                        assert(mask_view(mask)[u1 as int][v as int] != b);
                    }
                    assert(u_run(mb, b, u1 as int, v as int, size as int) == u1 as int);
                }
                // Extend along v while whole rows of the u extent match.
                let mut v1 = v + 1;
                while v1 < size && row_match(&mask, b, u, u1, v1)
                    invariant
                        v + 1 <= v1 <= size,
                        u < u1 <= size,
                        size == mask_view(mask).len(),
                        mask_wf(mask_view(mask), size as int),
                        v_run(mask_view(mask), b, u as int, u1 as int, v as int + 1, size as int)
                            == v_run(
                            mask_view(mask),
                            b,
                            u as int,
                            u1 as int,
                            v1 as int,
                            size as int,
                        ),
                        mask_view(mask) == mb,
                    decreases size - v1,
                {
                    v1 += 1;
                }
                proof {
                    if v1 < size {
                        assert(!row_all(mb, b, u as int, u1 as int, v1 as int));
                    }
                    assert(v_run(mb, b, u as int, u1 as int, v1 as int, size as int) == v1 as int);
                }
                let q = Quad { u0: u, v0: v, u1, v1, mat: b };
                proof {
                    assert(q@ == quad_at(mb, u as int, v as int, size as int));
                }
                let ghost qs_old = quads@;
                quads.push(q);
                // Clear every covered cell so it is not emitted again.
                let mut uu = u;
                while uu < u1
                    invariant
                        u <= uu <= u1 <= size,
                        v < v1 <= size,
                        mask_wf(mb, size as int),
                        mask_wf(mask_view(mask), size as int),
                        forall|a: int, c: int|
                            0 <= a < size && 0 <= c < size ==> mask_view(mask)[a][c] == (
                            if u <= a < uu && v <= c < v1 {
                                Material::Air
                            } else {
                                mb[a][c]
                            }),
                    decreases u1 - uu,
                {
                    let mut vv = v;
                    while vv < v1
                        invariant
                            u <= uu < u1 <= size,
                            v <= vv <= v1 <= size,
                            mask_wf(mb, size as int),
                            mask_wf(mask_view(mask), size as int),
                            forall|a: int, c: int|
                                0 <= a < size && 0 <= c < size ==> mask_view(mask)[a][c] == (
                                if (u <= a < uu && v <= c < v1) || (a == uu && v <= c < vv) {
                                    Material::Air
                                } else {
                                    mb[a][c]
                                }),
                        decreases v1 - vv,
                    {
                        let ghost mv_old = mask_view(mask);
                        proof {
                            assert(mask_view(mask)[uu as int].len() == size);
                            assert(mask@[uu as int]@.len() == size);
                        }
                        let row: &mut Vec<Material> = &mut mask[uu];
                        row[vv] = Material::Air;
                        proof {
                            assert(mask_view(mask).len() == size);
                            assert(forall|a: int|
                                0 <= a < size ==> #[trigger] mask_view(mask)[a].len()
                                    == mv_old[a].len());
                            assert(forall|a: int, c: int|
                                0 <= a < size && 0 <= c < size ==> mask_view(mask)[a][c] == (
                                if a == uu && c == vv {
                                    Material::Air
                                } else {
                                    mv_old[a][c]
                                }));
                        }
                        vv += 1;
                    }
                    uu += 1;
                }
                proof {
                    assert(mask_view(mask) =~~= clear_quad(mb, q@));
                    assert(greedy_quads(mb, u as int, v as int, size as int) == seq![q@]
                        + greedy_quads(clear_quad(mb, q@), u as int, v as int + 1, size as int));
                    assert(quads@.map_values(|qq: Quad| qq@) =~= qs_old.map_values(|qq: Quad| qq@)
                        .push(q@));
                    assert(qs_old.map_values(|qq: Quad| qq@).push(q@) + greedy_quads(
                        mask_view(mask),
                        u as int,
                        v as int + 1,
                        size as int,
                    ) =~= qs_old.map_values(|qq: Quad| qq@) + (seq![q@] + greedy_quads(
                        mask_view(mask),
                        u as int,
                        v as int + 1,
                        size as int,
                    )));
                }
            } else {
                proof {
                    assert(greedy_quads(mask_view(mask), u as int, v as int, size as int)
                        == greedy_quads(mask_view(mask), u as int, v as int + 1, size as int));
                }
            }
        }
        proof {
            assert(greedy_quads(mask_view(mask), u as int, size as int, size as int)
                == greedy_quads(mask_view(mask), u as int + 1, 0, size as int));
        }
    }
    proof {
        assert(greedy_quads(mask_view(mask), size as int, 0, size as int)
            == Seq::<QuadModel>::empty());
        assert(quads@.map_values(|q: Quad| q@) + Seq::<QuadModel>::empty() =~= quads@.map_values(
            |q: Quad| q@,
        ));
    }
    quads
}

/// Emit one unit quad per non-air cell of a culled slab mask: the unmerged
/// pass.
pub fn culled_slab_quads(mask: &Vec<Vec<Material>>, size: usize) -> (r: Vec<Quad>)
    requires
        mask_wf(mask_view(*mask), size as int),
    ensures
        r@.map_values(|q: Quad| q@) == culled_quads(mask_view(*mask), 0, 0, size as int),
{
    let ghost m0 = mask_view(*mask);
    let mut quads: Vec<Quad> = Vec::new();
    if size == 0 {
        proof {
            assert(quads@.map_values(|q: Quad| q@) =~= culled_quads(m0, 0, 0, 0));
        }
        return quads;
    }
    proof {
        assert(quads@.map_values(|q: Quad| q@) + culled_quads(m0, 0, 0, size as int) =~= culled_quads(
            m0,
            0,
            0,
            size as int,
        ));
    }
    for u in 0..size
        invariant
            size >= 1,
            mask_wf(m0, size as int),
            m0 == mask_view(*mask),
            culled_quads(m0, 0, 0, size as int) == quads@.map_values(|q: Quad| q@) + culled_quads(
                m0,
                u as int,
                0,
                size as int,
            ),
    {
        for v in 0..size
            invariant
                size >= 1,
                u < size,
                mask_wf(m0, size as int),
                m0 == mask_view(*mask),
                culled_quads(m0, 0, 0, size as int) == quads@.map_values(|q: Quad| q@)
                    + culled_quads(m0, u as int, v as int, size as int),
        {
            let b = mask[u][v];
            proof {
                assert(m0[u as int][v as int] == b);
            }
            if b != Material::Air {
                let q = Quad { u0: u, v0: v, u1: u + 1, v1: v + 1, mat: b };
                let ghost qs_old = quads@;
                quads.push(q);
                proof {
                    assert(culled_quads(m0, u as int, v as int, size as int) == seq![q@]
                        + culled_quads(m0, u as int, v as int + 1, size as int));
                    assert(quads@.map_values(|qq: Quad| qq@) =~= qs_old.map_values(|qq: Quad| qq@)
                        .push(q@));
                    assert(qs_old.map_values(|qq: Quad| qq@).push(q@) + culled_quads(
                        m0,
                        u as int,
                        v as int + 1,
                        size as int,
                    ) =~= qs_old.map_values(|qq: Quad| qq@) + (seq![q@] + culled_quads(
                        m0,
                        u as int,
                        v as int + 1,
                        size as int,
                    )));
                }
            } else {
                proof {
                    assert(culled_quads(m0, u as int, v as int, size as int) == culled_quads(
                        m0,
                        u as int,
                        v as int + 1,
                        size as int,
                    ));
                }
            }
        }
        proof {
            assert(culled_quads(m0, u as int, size as int, size as int) == culled_quads(
                m0,
                u as int + 1,
                0,
                size as int,
            ));
        }
    }
    proof {
        assert(culled_quads(m0, size as int, 0, size as int) == Seq::<QuadModel>::empty());
        assert(quads@.map_values(|q: Quad| q@) + Seq::<QuadModel>::empty() =~= quads@.map_values(
            |q: Quad| q@,
        ));
    }
    quads
}

/// The vertex at axis-relative coordinates (executable `vert_model`).
fn vert_at(d: usize, di: usize, a: usize, b: usize, mat: Material) -> (r: Vertex)
    requires
        d < 3,
    ensures
        r@ == vert_model(d as int, di as int, a as int, b as int, mat),
{
    if d == 0 {
        Vertex { x: di, y: a, z: b, norm_axis: 0, mat }
    } else if d == 1 {
        Vertex { x: b, y: di, z: a, norm_axis: 1, mat }
    } else {
        Vertex { x: a, y: b, z: di, norm_axis: 2, mat }
    }
}

/// Append the six vertices of one quad to the vertex stream.
fn push_quad_verts(verts: &mut Vec<Vertex>, d: usize, di: usize, q: Quad)
    requires
        d < 3,
    ensures
        final(verts)@.map_values(|x: Vertex| x@) == old(verts)@.map_values(|x: Vertex| x@)
            + quad_verts(d as int, di as int, q@),
{
    let ghost vs_old = verts@;
    let bl = vert_at(d, di, q.u0, q.v0, q.mat);
    let tl = vert_at(d, di, q.u1, q.v0, q.mat);
    let tr = vert_at(d, di, q.u1, q.v1, q.mat);
    let br = vert_at(d, di, q.u0, q.v1, q.mat);
    verts.push(bl);
    verts.push(tl);
    verts.push(tr);
    verts.push(bl);
    verts.push(tr);
    verts.push(br);
    proof {
        assert(verts@.map_values(|x: Vertex| x@) =~= vs_old.map_values(|x: Vertex| x@)
            + quad_verts(d as int, di as int, q@));
    }
}

/// Append the vertices of a whole slab's quads to the vertex stream.
fn emit_quads(verts: &mut Vec<Vertex>, d: usize, di: usize, quads: &Vec<Quad>)
    requires
        d < 3,
    ensures
        final(verts)@.map_values(|x: Vertex| x@) == old(verts)@.map_values(|x: Vertex| x@)
            + quads_verts(d as int, di as int, quads@.map_values(|q: Quad| q@)),
{
    let ghost vs_old = verts@.map_values(|x: Vertex| x@);
    let ghost qms = quads@.map_values(|q: Quad| q@);
    let n = quads.len();
    proof {
        assert(verts@.map_values(|x: Vertex| x@) =~= vs_old + quads_verts_upto(
            d as int,
            di as int,
            qms,
            0,
        ));
    }
    for j in 0..n
        invariant
            d < 3,
            n == quads@.len(),
            qms == quads@.map_values(|q: Quad| q@),
            verts@.map_values(|x: Vertex| x@) == vs_old + quads_verts_upto(
                d as int,
                di as int,
                qms,
                j as int,
            ),
    {
        push_quad_verts(verts, d, di, quads[j]);
        proof {
            assert(quads@[j as int]@ == qms[j as int]);
            assert(quads_verts_upto(d as int, di as int, qms, j as int + 1) == quads_verts_upto(
                d as int,
                di as int,
                qms,
                j as int,
            ) + quad_verts(d as int, di as int, qms[j as int]));
            assert((vs_old + quads_verts_upto(d as int, di as int, qms, j as int)) + quad_verts(
                d as int,
                di as int,
                qms[j as int],
            ) =~= vs_old + quads_verts_upto(d as int, di as int, qms, j as int + 1));
        }
    }
}

/// Select the neighbor pair of a sweep axis from the six neighbors, in the
/// fixed order -x, +x, -y, +y, -z, +z: the negative-side and positive-side
/// chunks along `axis`.
pub fn neighbor_axis(neighbors: &Vec<Chunk>, axis: usize) -> (r: (&Chunk, &Chunk))
    requires
        neighbors@.len() == 6,
        axis < 3,
    ensures
        *r.0 == neighbors@[2 * axis as int],
        *r.1 == neighbors@[2 * axis as int + 1],
{
    if axis == 0 {
        (&neighbors[0], &neighbors[1])
    } else if axis == 1 {
        (&neighbors[2], &neighbors[3])
    } else {
        (&neighbors[4], &neighbors[5])
    }
}

/// The greedy mesher: culls faces against the six neighbors and merges
/// equal faces into maximal greedy rectangles before emitting triangles.
pub struct Greedy;

/// The naive mesher: culls faces against the six neighbors and emits one
/// quad per face, without merging.
pub struct Culled;

impl Greedy {
    /// Mesh one chunk for one phase. `neighbors` holds the six face-adjacent
    /// chunks in the order -x, +x, -y, +y, -z, +z; no input is mutated. The
    /// result is exactly the spec-level greedy mesh of the grids, so equal
    /// voxel data always meshes to equal geometry.
    pub fn mesh(&self, grid: &Chunk, neighbors: &Vec<Chunk>, phase2: bool) -> (r: Vec<Vertex>)
        requires
            mesh_inputs_wf(*grid, neighbors@),
        ensures
            r@.map_values(|x: Vertex| x@) == greedy_mesh_spec(
                grid@,
                grid_views(neighbors@),
                grid.spec_size(),
                phase2,
            ),
    {
        let size = grid.size();
        let ghost g = grid@;
        let ghost nv = grid_views(neighbors@);
        let mut verts: Vec<Vertex> = Vec::new();
        proof {
            assert(verts@.map_values(|x: Vertex| x@) =~= Seq::<VertexModel>::empty()
                + mesh_prefix_greedy(g, nv, size as int, 0, phase2));
        }
        for d in 0..3usize
            invariant
                mesh_inputs_wf(*grid, neighbors@),
                size == grid.spec_size(),
                g == grid@,
                nv == grid_views(neighbors@),
                verts@.map_values(|x: Vertex| x@) == mesh_prefix_greedy(
                    g,
                    nv,
                    size as int,
                    d as int,
                    phase2,
                ),
        {
            let (neg, pos) = neighbor_axis(neighbors, d);
            let ghost base = verts@.map_values(|x: Vertex| x@);
            proof {
                assert(base + axis_verts_greedy(g, nv[2 * d as int], nv[2 * d as int + 1], size as int, d as int, 0, phase2)
                    =~= base);
            }
            for i in 0..(size + 1)
                invariant
                    mesh_inputs_wf(*grid, neighbors@),
                    d < 3,
                    size == grid.spec_size(),
                    g == grid@,
                    nv == grid_views(neighbors@),
                    *neg == neighbors@[2 * d as int],
                    *pos == neighbors@[2 * d as int + 1],
                    base == mesh_prefix_greedy(g, nv, size as int, d as int, phase2),
                    verts@.map_values(|x: Vertex| x@) == base + axis_verts_greedy(
                        g,
                        nv[2 * d as int],
                        nv[2 * d as int + 1],
                        size as int,
                        d as int,
                        i as int,
                        phase2,
                    ),
            {
                let mask = grid.cull_slab(neg, pos, d, i, phase2);
                let quads = greedy_merge_slab(mask, size);
                proof {
                    assert(quads@.map_values(|q: Quad| q@) == slab_quads_greedy(
                        g,
                        nv[2 * d as int],
                        nv[2 * d as int + 1],
                        size as int,
                        d as int,
                        i as int,
                        phase2,
                    ));
                }
                emit_quads(&mut verts, d, i, &quads);
                proof {
                    assert((base + axis_verts_greedy(
                        g,
                        nv[2 * d as int],
                        nv[2 * d as int + 1],
                        size as int,
                        d as int,
                        i as int,
                        phase2,
                    )) + quads_verts(d as int, i as int, quads@.map_values(|q: Quad| q@)) =~= base
                        + axis_verts_greedy(
                        g,
                        nv[2 * d as int],
                        nv[2 * d as int + 1],
                        size as int,
                        d as int,
                        i as int + 1,
                        phase2,
                    ));
                }
            }
            proof {
                assert(verts@.map_values(|x: Vertex| x@) == mesh_prefix_greedy(
                    g,
                    nv,
                    size as int,
                    d as int + 1,
                    phase2,
                ));
            }
        }
        verts
    }
}

impl Culled {
    /// Mesh one chunk for one phase without merging: one quad per culled
    /// face. `neighbors` holds the six face-adjacent chunks in the order
    /// -x, +x, -y, +y, -z, +z; no input is mutated.
    pub fn mesh(&self, grid: &Chunk, neighbors: &Vec<Chunk>, phase2: bool) -> (r: Vec<Vertex>)
        requires
            mesh_inputs_wf(*grid, neighbors@),
        ensures
            r@.map_values(|x: Vertex| x@) == culled_mesh_spec(
                grid@,
                grid_views(neighbors@),
                grid.spec_size(),
                phase2,
            ),
    {
        let size = grid.size();
        let ghost g = grid@;
        let ghost nv = grid_views(neighbors@);
        let mut verts: Vec<Vertex> = Vec::new();
        proof {
            assert(verts@.map_values(|x: Vertex| x@) =~= Seq::<VertexModel>::empty()
                + mesh_prefix_culled(g, nv, size as int, 0, phase2));
        }
        for d in 0..3usize
            invariant
                mesh_inputs_wf(*grid, neighbors@),
                size == grid.spec_size(),
                g == grid@,
                nv == grid_views(neighbors@),
                verts@.map_values(|x: Vertex| x@) == mesh_prefix_culled(
                    g,
                    nv,
                    size as int,
                    d as int,
                    phase2,
                ),
        {
            let (neg, pos) = neighbor_axis(neighbors, d);
            let ghost base = verts@.map_values(|x: Vertex| x@);
            proof {
                assert(base + axis_verts_culled(g, nv[2 * d as int], nv[2 * d as int + 1], size as int, d as int, 0, phase2)
                    =~= base);
            }
            for i in 0..(size + 1)
                invariant
                    mesh_inputs_wf(*grid, neighbors@),
                    d < 3,
                    size == grid.spec_size(),
                    g == grid@,
                    nv == grid_views(neighbors@),
                    *neg == neighbors@[2 * d as int],
                    *pos == neighbors@[2 * d as int + 1],
                    base == mesh_prefix_culled(g, nv, size as int, d as int, phase2),
                    verts@.map_values(|x: Vertex| x@) == base + axis_verts_culled(
                        g,
                        nv[2 * d as int],
                        nv[2 * d as int + 1],
                        size as int,
                        d as int,
                        i as int,
                        phase2,
                    ),
            {
                let mask = grid.cull_slab(neg, pos, d, i, phase2);
                let quads = culled_slab_quads(&mask, size);
                proof {
                    assert(quads@.map_values(|q: Quad| q@) == slab_quads_culled(
                        g,
                        nv[2 * d as int],
                        nv[2 * d as int + 1],
                        size as int,
                        d as int,
                        i as int,
                        phase2,
                    ));
                }
                emit_quads(&mut verts, d, i, &quads);
                proof {
                    assert((base + axis_verts_culled(
                        g,
                        nv[2 * d as int],
                        nv[2 * d as int + 1],
                        size as int,
                        d as int,
                        i as int,
                        phase2,
                    )) + quads_verts(d as int, i as int, quads@.map_values(|q: Quad| q@)) =~= base
                        + axis_verts_culled(
                        g,
                        nv[2 * d as int],
                        nv[2 * d as int + 1],
                        size as int,
                        d as int,
                        i as int + 1,
                        phase2,
                    ));
                }
            }
            proof {
                assert(verts@.map_values(|x: Vertex| x@) == mesh_prefix_culled(
                    g,
                    nv,
                    size as int,
                    d as int + 1,
                    phase2,
                ));
            }
        }
        verts
    }
}

} // verus!
