//! Laws of the meshers.
//!
//! The greedy merge of a culled slab mask covers every drawn face exactly
//! once: its quads lie inside the slab, carry the mask's material, are
//! pairwise disjoint, and together cover exactly the non-air mask cells.
//! Consequently the summed area of the merged quads equals the number of
//! faces the unmerged pass emits, and every face a mesher draws has an
//! occupied voxel on exactly one side.

use vstd::prelude::*;

use crate::chunk::{face_at, slab_mask};
use crate::material::Material;
use crate::mesh::{
    clear_quad, culled_quads, greedy_quads, in_quad, mask_wf, quad_at, row_all, u_run, v_run,
    QuadModel,
};

verus! {

/// The set of cells a quad covers.
pub open spec fn quad_cells(q: QuadModel) -> Set<(int, int)> {
    Set::new(|p: (int, int)| in_quad(q, p.0, p.1))
}

/// A quad lies inside the slab and is non-degenerate.
pub open spec fn quad_in_bounds(q: QuadModel, size: int) -> bool {
    &&& 0 <= q.u0 < q.u1 <= size
    &&& 0 <= q.v0 < q.v1 <= size
}

/// A quad reports faces that are really in the mask: its material is not
/// air, and every covered cell holds exactly that material.
pub open spec fn quad_matches_mask(m: Seq<Seq<Material>>, q: QuadModel) -> bool {
    &&& q.mat != Material::Air
    &&& forall|a: int, c: int| #[trigger] in_quad(q, a, c) ==> m[a][c] == q.mat
}

/// No two quads of the sequence share a cell.
pub open spec fn quads_disjoint(qs: Seq<QuadModel>) -> bool {
    forall|i: int, j: int|
        0 <= i < j < qs.len() ==> quad_cells(#[trigger] qs[i]).disjoint(quad_cells(#[trigger] qs[j]))
}

/// All cells covered by any quad of the sequence.
pub open spec fn covered_cells(qs: Seq<QuadModel>) -> Set<(int, int)>
    decreases qs.len(),
{
    if qs.len() == 0 {
        Set::empty()
    } else {
        quad_cells(qs[0]).union(covered_cells(qs.drop_first()))
    }
}

/// Scan order of the greedy pass: `(a, c)` is at or after `(u, v)`,
/// row-major with `u` outer.
pub open spec fn scan_ge(a: int, c: int, u: int, v: int) -> bool {
    a > u || (a == u && c >= v)
}

/// The non-air mask cells at or after scan position `(u, v)`.
pub open spec fn non_air_from(m: Seq<Seq<Material>>, u: int, v: int, size: int) -> Set<(int, int)> {
    Set::new(
        |p: (int, int)|
            0 <= p.0 < size && 0 <= p.1 < size && scan_ge(p.0, p.1, u, v) && m[p.0][p.1]
                != Material::Air,
    )
}

/// A `u` run really is a run: every cell from its start to its end matches,
/// and the end stays within the slab.
proof fn lemma_u_run(m: Seq<Seq<Material>>, b: Material, u: int, v: int, size: int)
    requires
        0 <= u <= size,
    ensures
        u <= u_run(m, b, u, v, size) <= size,
        forall|a: int| u <= a < u_run(m, b, u, v, size) ==> m[a][v] == b,
    decreases size - u,
{
    if u < size && m[u][v] == b {
        lemma_u_run(m, b, u + 1, v, size);
    }
}

/// A `v` run really is a run: every row from its start to its end matches
/// across the whole `u` extent, and the end stays within the slab.
proof fn lemma_v_run(m: Seq<Seq<Material>>, b: Material, u0: int, u1: int, v: int, size: int)
    requires
        0 <= v <= size,
    ensures
        v <= v_run(m, b, u0, u1, v, size) <= size,
        forall|c: int| v <= c < v_run(m, b, u0, u1, v, size) ==> row_all(m, b, u0, u1, c),
    decreases size - v,
{
    if v < size && row_all(m, b, u0, u1, v) {
        lemma_v_run(m, b, u0, u1, v + 1, size);
    }
}

/// Exact cover: scanning from `(u, v)`, the greedy quads lie inside the
/// slab, carry the material of every cell they cover, are pairwise
/// disjoint, and cover exactly the non-air cells at or after `(u, v)`.
pub proof fn lemma_greedy_props(m: Seq<Seq<Material>>, u: int, v: int, size: int)
    requires
        mask_wf(m, size),
        0 <= u,
        0 <= v <= size,
    ensures
        ({
            let qs = greedy_quads(m, u, v, size);
            &&& forall|k: int|
                0 <= k < qs.len() ==> quad_in_bounds(#[trigger] qs[k], size) && quad_matches_mask(
                    m,
                    qs[k],
                ) && scan_ge(qs[k].u0, qs[k].v0, u, v)
            &&& quads_disjoint(qs)
            &&& covered_cells(qs) == non_air_from(m, u, v, size)
        }),
    decreases size - u, size + 1 - v,
{
    let qs = greedy_quads(m, u, v, size);
    if size <= 0 || u >= size {
        assert(qs =~= Seq::<QuadModel>::empty());
        assert(covered_cells(qs) =~= Set::<(int, int)>::empty());
        assert(covered_cells(qs) =~= non_air_from(m, u, v, size));
    } else if v == size {
        lemma_greedy_props(m, u + 1, 0, size);
        assert(qs == greedy_quads(m, u + 1, 0, size));
        assert(non_air_from(m, u + 1, 0, size) =~= non_air_from(m, u, v, size));
    } else if m[u][v] == Material::Air {
        lemma_greedy_props(m, u, v + 1, size);
        assert(qs == greedy_quads(m, u, v + 1, size));
        assert(non_air_from(m, u, v + 1, size) =~= non_air_from(m, u, v, size));
    } else {
        let b = m[u][v];
        let q = quad_at(m, u, v, size);
        lemma_u_run(m, b, u + 1, v, size);
        lemma_v_run(m, b, u, q.u1, v + 1, size);
        assert(quad_in_bounds(q, size));
        assert forall|a: int, c: int| #[trigger] in_quad(q, a, c) implies m[a][c] == b by {
            if c == v {
                if a > u {
                    assert(m[a][v] == b);
                }
            } else {
                assert(row_all(m, b, q.u0, q.u1, c));
            }
        }
        assert(quad_matches_mask(m, q));
        let m2 = clear_quad(m, q);
        assert(mask_wf(m2, size)) by {
            assert(m2.len() == size);
            assert(forall|a: int| 0 <= a < size ==> #[trigger] m2[a].len() == size);
        }
        lemma_greedy_props(m2, u, v + 1, size);
        let tail = greedy_quads(m2, u, v + 1, size);
        assert(qs == seq![q] + tail);
        assert(qs[0] == q);
        assert(qs.drop_first() =~= tail);
        assert(qs.len() == 1 + tail.len());

        // A cell of any tail quad is non-air in the cleared mask, so it lies
        // outside `q` and keeps its original material.
        assert forall|k: int| 0 <= k < tail.len() implies quad_matches_mask(
            m,
            #[trigger] tail[k],
        ) && quad_cells(q).disjoint(quad_cells(tail[k])) by {
            let t = tail[k];
            assert(quad_in_bounds(t, size));
            assert forall|a: int, c: int| #[trigger] in_quad(t, a, c) implies m[a][c] == t.mat
                && !in_quad(q, a, c) by {
                assert(m2[a][c] == t.mat);
                assert(t.mat != Material::Air);
                if in_quad(q, a, c) {
                    assert(m2[a][c] == Material::Air);
                }
                assert(m[a][c] == m2[a][c]);
            }
            assert forall|p: (int, int)| quad_cells(q).contains(p) implies !quad_cells(
                t,
            ).contains(p) by {
                if in_quad(t, p.0, p.1) {
                    assert(!in_quad(q, p.0, p.1));
                }
            }
        }

        assert forall|i: int, j: int| 0 <= i < j < qs.len() implies quad_cells(
            #[trigger] qs[i],
        ).disjoint(quad_cells(#[trigger] qs[j])) by {
            if i == 0 {
                assert(qs[j] == tail[j - 1]);
            } else {
                assert(qs[i] == tail[i - 1]);
                assert(qs[j] == tail[j - 1]);
                assert(quads_disjoint(tail));
            }
        }

        assert(covered_cells(qs) =~= quad_cells(q).union(covered_cells(tail)));
        assert(covered_cells(tail) == non_air_from(m2, u, v + 1, size));
        assert forall|p: (int, int)|
            quad_cells(q).union(non_air_from(m2, u, v + 1, size)).contains(p)
                <==> non_air_from(m, u, v, size).contains(p) by {
            let a = p.0;
            let c = p.1;
            if in_quad(q, a, c) {
                assert(m[a][c] == b);
                assert(scan_ge(a, c, u, v));
                assert(non_air_from(m, u, v, size).contains(p));
            } else if non_air_from(m2, u, v + 1, size).contains(p) {
                assert(m[a][c] == m2[a][c]);
                assert(non_air_from(m, u, v, size).contains(p));
            }
            if non_air_from(m, u, v, size).contains(p) && !in_quad(q, a, c) {
                assert(m2[a][c] == m[a][c]);
                if a == u && c == v {
                    assert(in_quad(q, a, c));
                }
                assert(scan_ge(a, c, u, v + 1));
                assert(non_air_from(m2, u, v + 1, size).contains(p));
            }
        }
        assert(quad_cells(q).union(non_air_from(m2, u, v + 1, size)) =~= non_air_from(
            m,
            u,
            v,
            size,
        ));
    }
}

/// Area of one quad, in faces.
pub open spec fn quad_area(q: QuadModel) -> int {
    (q.u1 - q.u0) * (q.v1 - q.v0)
}

/// Summed area of a quad sequence.
pub open spec fn area_sum(qs: Seq<QuadModel>) -> int
    decreases qs.len(),
{
    if qs.len() == 0 {
        0
    } else {
        quad_area(qs[0]) + area_sum(qs.drop_first())
    }
}

/// The size of a union of disjoint finite sets is the sum of their sizes.
proof fn lemma_len_disjoint_union(a: Set<(int, int)>, b: Set<(int, int)>)
    requires
        a.finite(),
        b.finite(),
        a.disjoint(b),
    ensures
        a.union(b).finite(),
        a.union(b).len() == a.len() + b.len(),
    decreases a.len(),
{
    if a.len() == 0 {
        assert(a.union(b) =~= b);
    } else {
        let x = a.choose();
        assert(a.contains(x));
        assert(a.remove(x).union(b) =~= a.union(b).remove(x));
        lemma_len_disjoint_union(a.remove(x), b);
        assert(a.union(b) =~= a.remove(x).union(b).insert(x));
    }
}

/// One row segment `[u0, u1)` at height `c` has `u1 - u0` cells.
proof fn lemma_row_cells_card(u0: int, u1: int, c: int)
    requires
        u0 <= u1,
    ensures
        Set::new(|p: (int, int)| u0 <= p.0 < u1 && p.1 == c).finite(),
        Set::new(|p: (int, int)| u0 <= p.0 < u1 && p.1 == c).len() == u1 - u0,
    decreases u1 - u0,
{
    let s = Set::new(|p: (int, int)| u0 <= p.0 < u1 && p.1 == c);
    if u0 == u1 {
        assert(s =~= Set::<(int, int)>::empty());
    } else {
        let s0 = Set::new(|p: (int, int)| u0 <= p.0 < u1 - 1 && p.1 == c);
        lemma_row_cells_card(u0, u1 - 1, c);
        assert(s =~= s0.insert((u1 - 1, c)));
        assert(!s0.contains((u1 - 1, c)));
    }
}

/// A quad covers exactly `quad_area` cells.
proof fn lemma_quad_cells_card(q: QuadModel)
    requires
        q.u0 <= q.u1,
        q.v0 <= q.v1,
    ensures
        quad_cells(q).finite(),
        quad_cells(q).len() == quad_area(q),
    decreases q.v1 - q.v0,
{
    if q.v0 == q.v1 {
        assert(quad_cells(q) =~= Set::<(int, int)>::empty());
        assert(quad_area(q) == 0) by (nonlinear_arith)
            requires q.v0 == q.v1;
    } else {
        let q0 = QuadModel { v1: q.v1 - 1, ..q };
        let row = Set::new(|p: (int, int)| q.u0 <= p.0 < q.u1 && p.1 == q.v1 - 1);
        lemma_quad_cells_card(q0);
        lemma_row_cells_card(q.u0, q.u1, q.v1 - 1);
        assert(quad_cells(q0).disjoint(row));
        lemma_len_disjoint_union(quad_cells(q0), row);
        assert(quad_cells(q) =~= quad_cells(q0).union(row));
        assert(quad_area(q) == quad_area(q0) + (q.u1 - q.u0)) by (nonlinear_arith)
            requires q0 == (QuadModel { v1: q.v1 - 1, ..q }), q.v0 < q.v1;
    }
}

/// A quad disjoint from every quad of a sequence is disjoint from all the
/// cells they cover.
proof fn lemma_quad_disjoint_covered(q: QuadModel, qs: Seq<QuadModel>)
    requires
        forall|k: int| 0 <= k < qs.len() ==> quad_cells(q).disjoint(quad_cells(#[trigger] qs[k])),
    ensures
        quad_cells(q).disjoint(covered_cells(qs)),
    decreases qs.len(),
{
    if qs.len() > 0 {
        lemma_quad_disjoint_covered(q, qs.drop_first());
        assert(forall|p: (int, int)|
            covered_cells(qs).contains(p) ==> quad_cells(qs[0]).contains(p) || covered_cells(
                qs.drop_first(),
            ).contains(p));
    }
}

/// Pairwise disjoint quads cover exactly as many cells as their areas sum
/// to.
proof fn lemma_covered_card(qs: Seq<QuadModel>)
    requires
        forall|k: int|
            0 <= k < qs.len() ==> (#[trigger] qs[k]).u0 <= qs[k].u1 && qs[k].v0 <= qs[k].v1,
        quads_disjoint(qs),
    ensures
        covered_cells(qs).finite(),
        covered_cells(qs).len() == area_sum(qs),
    decreases qs.len(),
{
    if qs.len() > 0 {
        let tail = qs.drop_first();
        assert(forall|k: int|
            0 <= k < tail.len() ==> #[trigger] tail[k] == qs[k + 1]);
        assert(quads_disjoint(tail));
        lemma_covered_card(tail);
        lemma_quad_cells_card(qs[0]);
        assert(forall|k: int|
            0 <= k < tail.len() ==> quad_cells(qs[0]).disjoint(quad_cells(#[trigger] tail[k])));
        lemma_quad_disjoint_covered(qs[0], tail);
        lemma_len_disjoint_union(quad_cells(qs[0]), covered_cells(tail));
    }
}

/// The unmerged pass emits exactly one quad per non-air cell at or after the
/// scan position, so its length counts those cells.
proof fn lemma_culled_count(m: Seq<Seq<Material>>, u: int, v: int, size: int)
    requires
        mask_wf(m, size),
        0 <= u,
        0 <= v <= size,
    ensures
        non_air_from(m, u, v, size).finite(),
        culled_quads(m, u, v, size).len() == non_air_from(m, u, v, size).len(),
    decreases size - u, size + 1 - v,
{
    let qs = culled_quads(m, u, v, size);
    if size <= 0 || u >= size {
        assert(non_air_from(m, u, v, size) =~= Set::<(int, int)>::empty());
        assert(qs =~= Seq::<QuadModel>::empty());
    } else if v == size {
        lemma_culled_count(m, u + 1, 0, size);
        assert(non_air_from(m, u, v, size) =~= non_air_from(m, u + 1, 0, size));
    } else if m[u][v] == Material::Air {
        lemma_culled_count(m, u, v + 1, size);
        assert(non_air_from(m, u, v, size) =~= non_air_from(m, u, v + 1, size));
    } else {
        lemma_culled_count(m, u, v + 1, size);
        assert(!non_air_from(m, u, v + 1, size).contains((u, v)));
        assert(non_air_from(m, u, v, size) =~= non_air_from(m, u, v + 1, size).insert((u, v)));
        assert(qs.len() == 1 + culled_quads(m, u, v + 1, size).len());
    }
}

/// Greedy merge idempotence: within one slab, the summed area of the merged
/// quads equals the number of faces the unmerged per-voxel culling pass
/// emits — merging exactly covers every individually culled face.
pub proof fn lemma_greedy_area_matches_culled(m: Seq<Seq<Material>>, size: int)
    requires
        mask_wf(m, size),
        0 <= size,
    ensures
        area_sum(greedy_quads(m, 0, 0, size)) == culled_quads(m, 0, 0, size).len(),
{
    lemma_greedy_props(m, 0, 0, size);
    let qs = greedy_quads(m, 0, 0, size);
    assert(forall|k: int|
        0 <= k < qs.len() ==> (#[trigger] qs[k]).u0 <= qs[k].u1 && qs[k].v0 <= qs[k].v1);
    lemma_covered_card(qs);
    lemma_culled_count(m, 0, 0, size);
}

/// Faces are emitted exactly once and only where the culled mask draws them:
/// the greedy quads of one slab are pairwise disjoint (no face is covered
/// twice), and every cell a quad covers holds a drawn face of exactly the
/// quad's (non-air) material; together they cover every drawn face. What a
/// drawn face means — an occupied voxel on exactly one side — is
/// `crate::chunk::lemma_face_one_sided`.
pub proof fn lemma_greedy_faces_exact(
    g: Seq<Seq<Seq<Material>>>,
    neg: Seq<Seq<Seq<Material>>>,
    pos: Seq<Seq<Seq<Material>>>,
    size: int,
    d: int,
    i: int,
    phase2: bool,
)
    requires
        0 <= size,
    ensures
        ({
            let qs = crate::mesh::slab_quads_greedy(g, neg, pos, size, d, i, phase2);
            &&& quads_disjoint(qs)
            &&& forall|k: int|
                0 <= k < qs.len() ==> quad_in_bounds(#[trigger] qs[k], size) && qs[k].mat
                    != Material::Air && forall|a: int, c: int|
                    #[trigger] in_quad(qs[k], a, c) ==> face_at(g, neg, pos, size, d, i, a, c, phase2)
                        == qs[k].mat
            &&& covered_cells(qs) == non_air_from(slab_mask(g, neg, pos, size, d, i, phase2), 0, 0, size)
        }),
{
    let m = slab_mask(g, neg, pos, size, d, i, phase2);
    assert(mask_wf(m, size)) by {
        assert(m.len() == size);
        assert(forall|a: int| 0 <= a < size ==> #[trigger] m[a].len() == size);
    }
    lemma_greedy_props(m, 0, 0, size);
    let qs = crate::mesh::slab_quads_greedy(g, neg, pos, size, d, i, phase2);
    assert forall|k: int| 0 <= k < qs.len() implies quad_in_bounds(#[trigger] qs[k], size)
        && qs[k].mat != Material::Air && forall|a: int, c: int|
        #[trigger] in_quad(qs[k], a, c) ==> face_at(g, neg, pos, size, d, i, a, c, phase2)
            == qs[k].mat by {
        assert(quad_matches_mask(m, qs[k]));
        assert forall|a: int, c: int| #[trigger] in_quad(qs[k], a, c) implies face_at(
            g,
            neg,
            pos,
            size,
            d,
            i,
            a,
            c,
            phase2,
        ) == qs[k].mat by {
            assert(m[a][c] == qs[k].mat);
            assert(quad_in_bounds(qs[k], size));
            assert(m[a] == Seq::new(size as nat, |vv: int| face_at(g, neg, pos, size, d, i, a, vv, phase2)));
        }
    }
}

/// Determinism of meshing: the mesh is a function of the voxel data alone,
/// so a chunk evicted and later re-delivered with equal contents — and equal
/// neighbor contents — meshes to identical geometry in either phase.
pub proof fn lemma_mesh_deterministic(
    g1: Seq<Seq<Seq<Material>>>,
    nbrs1: Seq<Seq<Seq<Seq<Material>>>>,
    g2: Seq<Seq<Seq<Material>>>,
    nbrs2: Seq<Seq<Seq<Seq<Material>>>>,
    size: int,
    phase2: bool,
)
    requires
        g1 == g2,
        nbrs1 == nbrs2,
    ensures
        crate::mesh::greedy_mesh_spec(g1, nbrs1, size, phase2) == crate::mesh::greedy_mesh_spec(
            g2,
            nbrs2,
            size,
            phase2,
        ),
        crate::mesh::culled_mesh_spec(g1, nbrs1, size, phase2) == crate::mesh::culled_mesh_spec(
            g2,
            nbrs2,
            size,
            phase2,
        ),
{
}

} // verus!
