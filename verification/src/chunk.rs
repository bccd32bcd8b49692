//! Chunks: dense cubic grids of voxel materials, and face culling.
//!
//! A chunk is the unit of loading, unloading and meshing. Culling computes,
//! for one slab position along a sweep axis, which boundaries between two
//! voxels must be drawn: exactly those where one side occupies the current
//! phase and the other does not. The two boundary slabs consult the adjacent
//! neighbor chunk, which is why meshing a chunk requires all six neighbors
//! to be resident.

use vstd::prelude::*;

use crate::material::Material;

verus! {

/// A dense `size * size * size` grid of materials, indexed `[x][y][z]`.
pub struct Chunk {
    data: Vec<Vec<Vec<Material>>>,
}

/// Well-formedness of a grid view: a cube of side `size`.
pub open spec fn grid_wf(g: Seq<Seq<Seq<Material>>>, size: int) -> bool {
    &&& g.len() == size
    &&& forall|x: int|
        0 <= x < size ==> #[trigger] g[x].len() == size && forall|y: int|
            0 <= y < size ==> #[trigger] g[x][y].len() == size
}

/// Largest supported chunk side length: a machine limit keeping cube
/// volumes and slab counts well inside `usize`.
pub const MAX_CHUNK_SIDE: usize = 4096;

/// Every entry of a row equals `fill`.
pub open spec fn row_filled(row: Vec<Material>, size: int, fill: Material) -> bool {
    &&& row@.len() == size
    &&& forall|k: int| 0 <= k < size ==> row@[k] == fill
}

/// Every entry of a plane equals `fill`.
pub open spec fn plane_filled(plane: Vec<Vec<Material>>, size: int, fill: Material) -> bool {
    &&& plane@.len() == size
    &&& forall|j: int| 0 <= j < size ==> row_filled(#[trigger] plane@[j], size, fill)
}

/// The voxel coordinate addressed by sweeping along axis `d` (0, 1 or 2):
/// `di` is the index along `d`, and `u`, `v` index the other two axes
/// `(d + 1) % 3` and `(d + 2) % 3`.
pub open spec fn axis_coord(d: int, di: int, u: int, v: int) -> (int, int, int) {
    if d == 0 {
        (di, u, v)
    } else if d == 1 {
        (v, di, u)
    } else {
        (u, v, di)
    }
}

/// The material of a grid at an axis-relative coordinate.
pub open spec fn vox_axis(g: Seq<Seq<Seq<Material>>>, d: int, di: int, u: int, v: int) -> Material {
    let c = axis_coord(d, di, u, v);
    g[c.0][c.1][c.2]
}

/// The face to draw at slab position `i` along axis `d`, at cross coordinates
/// `(u, v)`, for the given phase. A slab boundary separates the voxel at
/// depth `i - 1` (below) from the voxel at depth `i` (above); the two
/// boundary slabs `i == 0` and `i == size` take the missing side from the
/// `neg` and `pos` neighbor grids. A face is drawn exactly where one side
/// occupies the phase and the other does not, and it carries the material of
/// the occupied side; everywhere else the mask holds `Air`.
pub open spec fn face_at(
    g: Seq<Seq<Seq<Material>>>,
    neg: Seq<Seq<Seq<Material>>>,
    pos: Seq<Seq<Seq<Material>>>,
    size: int,
    d: int,
    i: int,
    u: int,
    v: int,
    phase2: bool,
) -> Material {
    let below = if i == 0 {
        vox_axis(neg, d, size - 1, u, v)
    } else {
        vox_axis(g, d, i - 1, u, v)
    };
    let above = if i == size {
        vox_axis(pos, d, 0, u, v)
    } else {
        vox_axis(g, d, i, u, v)
    };
    if below.in_phase(phase2) && !above.in_phase(phase2) {
        below
    } else if above.in_phase(phase2) && !below.in_phase(phase2) {
        above
    } else {
        Material::Air
    }
}

/// The whole culled mask of one slab, indexed `[u][v]`.
pub open spec fn slab_mask(
    g: Seq<Seq<Seq<Material>>>,
    neg: Seq<Seq<Seq<Material>>>,
    pos: Seq<Seq<Seq<Material>>>,
    size: int,
    d: int,
    i: int,
    phase2: bool,
) -> Seq<Seq<Material>> {
    Seq::new(size as nat, |u: int| Seq::new(size as nat, |v: int| face_at(g, neg, pos, size, d, i, u, v, phase2)))
}

/// The view of an executable 2D mask.
pub open spec fn mask_view(m: Vec<Vec<Material>>) -> Seq<Seq<Material>> {
    m@.map_values(|row: Vec<Material>| row@)
}

/// A drawn face always has an occupied voxel on exactly one side: where the
/// culled mask is not `Air`, exactly one of the two adjacent voxels occupies
/// the phase, and the face carries that voxel's material.
pub proof fn lemma_face_one_sided(
    g: Seq<Seq<Seq<Material>>>,
    neg: Seq<Seq<Seq<Material>>>,
    pos: Seq<Seq<Seq<Material>>>,
    size: int,
    d: int,
    i: int,
    u: int,
    v: int,
    phase2: bool,
)
    ensures
        ({
            let below = if i == 0 {
                vox_axis(neg, d, size - 1, u, v)
            } else {
                vox_axis(g, d, i - 1, u, v)
            };
            let above = if i == size {
                vox_axis(pos, d, 0, u, v)
            } else {
                vox_axis(g, d, i, u, v)
            };
            let face = face_at(g, neg, pos, size, d, i, u, v, phase2);
            face != Material::Air ==> {
                &&& below.in_phase(phase2) != above.in_phase(phase2)
                &&& face == if below.in_phase(phase2) {
                    below
                } else {
                    above
                }
                &&& face.in_phase(phase2)
            }
        }),
{
}

impl View for Chunk {
    type V = Seq<Seq<Seq<Material>>>;

    closed spec fn view(&self) -> Seq<Seq<Seq<Material>>> {
        self.data@.map_values(
            |plane: Vec<Vec<Material>>| plane@.map_values(|row: Vec<Material>| row@),
        )
    }
}

/// A well-formed grid: a non-empty cube whose side length is bounded so
/// that slab indices (`size + 1` of them per axis) stay representable.
pub open spec fn cube_wf(g: Seq<Seq<Seq<Material>>>) -> bool {
    &&& 1 <= g.len() <= MAX_CHUNK_SIDE
    &&& grid_wf(g, g.len() as int)
}

impl Chunk {
    /// A chunk is a non-empty bounded cube.
    pub open spec fn wf(&self) -> bool {
        cube_wf(self@)
    }

    /// Whether this chunk really is a non-empty bounded cube.
    pub fn check_cube(&self) -> (r: bool)
        ensures
            r == self.wf(),
    {
        let n = self.data.len();
        proof {
            assert(self@.len() == self.data@.len());
        }
        if n < 1 || n > MAX_CHUNK_SIDE {
            return false;
        }
        for x in 0..n
            invariant
                n == self.data@.len(),
                1 <= n <= MAX_CHUNK_SIDE,
                forall|i: int| 0 <= i < x ==> #[trigger] self@[i].len() == n,
                forall|i: int, j: int|
                    0 <= i < x && 0 <= j < n ==> #[trigger] self@[i][j].len() == n,
        {
            proof {
                assert(self@[x as int].len() == self.data@[x as int]@.len());
            }
            if self.data[x].len() != n {
                return false;
            }
            for y in 0..n
                invariant
                    n == self.data@.len(),
                    x < n,
                    self@[x as int].len() == n,
                    forall|j: int| 0 <= j < y ==> #[trigger] self@[x as int][j].len() == n,
            {
                proof {
                    assert(self@[x as int][y as int].len()
                        == self.data@[x as int]@[y as int]@.len());
                }
                if self.data[x][y].len() != n {
                    return false;
                }
            }
        }
        proof {
            assert(grid_wf(self@, n as int));
        }
        true
    }

    /// Side length in blocks.
    pub open spec fn spec_size(&self) -> int {
        self@.len() as int
    }

    /// Side length in blocks.
    pub fn size(&self) -> (r: usize)
        ensures
            r == self.spec_size(),
    {
        self.data.len()
    }

    /// A chunk of side `size`, filled with one material.
    pub fn new(size: usize, fill: Material) -> (r: Chunk)
        requires
            1 <= size <= MAX_CHUNK_SIDE,
        ensures
            r.wf(),
            r.spec_size() == size,
            forall|x: int, y: int, z: int|
                0 <= x < size && 0 <= y < size && 0 <= z < size ==> r@[x][y][z] == fill,
    {
        let mut data: Vec<Vec<Vec<Material>>> = Vec::new();
        for x in 0..size
            invariant
                data@.len() == x,
                forall|i: int| 0 <= i < x ==> plane_filled(#[trigger] data@[i], size as int, fill),
        {
            let mut plane: Vec<Vec<Material>> = Vec::new();
            for y in 0..size
                invariant
                    plane@.len() == y,
                    forall|j: int| 0 <= j < y ==> row_filled(#[trigger] plane@[j], size as int, fill),
            {
                let mut row: Vec<Material> = Vec::new();
                for z in 0..size
                    invariant
                        row@.len() == z,
                        forall|k: int| 0 <= k < z ==> row@[k] == fill,
                {
                    row.push(fill);
                }
                plane.push(row);
            }
            data.push(plane);
        }
        Chunk { data }
    }

    /// A deep copy with the same contents.
    pub fn duplicate(&self) -> (r: Chunk)
        ensures
            r@ == self@,
    {
        let nx = self.data.len();
        let mut data: Vec<Vec<Vec<Material>>> = Vec::new();
        for x in 0..nx
            invariant
                nx == self.data@.len(),
                data@.len() == x,
                forall|i: int|
                    0 <= i < x ==> (#[trigger] data@[i])@.map_values(|row: Vec<Material>| row@)
                        == self@[i],
        {
            let ny = self.data[x].len();
            let mut plane: Vec<Vec<Material>> = Vec::new();
            for y in 0..ny
                invariant
                    nx == self.data@.len(),
                    x < nx,
                    ny == self.data@[x as int]@.len(),
                    plane@.len() == y,
                    forall|j: int| 0 <= j < y ==> #[trigger] plane@[j]@ == self@[x as int][j],
            {
                let nz = self.data[x][y].len();
                let mut row: Vec<Material> = Vec::new();
                for z in 0..nz
                    invariant
                        nx == self.data@.len(),
                        x < nx,
                        ny == self.data@[x as int]@.len(),
                        y < ny,
                        nz == self.data@[x as int]@[y as int]@.len(),
                        row@.len() == z,
                        forall|k: int| 0 <= k < z ==> row@[k] == self@[x as int][y as int][k],
                {
                    row.push(self.data[x][y][z]);
                    proof {
                        assert(self@[x as int][y as int][z as int]
                            == self.data@[x as int]@[y as int]@[z as int]);
                    }
                }
                proof {
                    assert(self@[x as int][y as int].len() == nz);
                    assert(row@ =~= self@[x as int][y as int]);
                }
                plane.push(row);
            }
            data.push(plane);
            proof {
                assert(self@[x as int].len() == ny);
                assert(data@[x as int]@.map_values(|row: Vec<Material>| row@) =~~= self@[x as int]);
            }
        }
        let r = Chunk { data };
        proof {
            assert(r@ =~~= self@);
        }
        r
    }

    /// The material at `(x, y, z)`.
    pub fn get(&self, x: usize, y: usize, z: usize) -> (r: Material)
        requires
            self.wf(),
            x < self.spec_size(),
            y < self.spec_size(),
            z < self.spec_size(),
        ensures
            r == self@[x as int][y as int][z as int],
    {
        proof {
            assert(self@.len() == self.data@.len());
            assert(self@[x as int].len() == self.data@[x as int]@.len());
            assert(self@[x as int][y as int].len() == self.data@[x as int]@[y as int]@.len());
            assert(self@[x as int][y as int][z as int]
                == self.data@[x as int]@[y as int]@[z as int]);
        }
        self.data[x][y][z]
    }

    /// The material at an axis-relative coordinate (see `axis_coord`).
    pub fn get_axis(&self, d: usize, di: usize, u: usize, v: usize) -> (r: Material)
        requires
            self.wf(),
            d < 3,
            di < self.spec_size(),
            u < self.spec_size(),
            v < self.spec_size(),
        ensures
            r == vox_axis(self@, d as int, di as int, u as int, v as int),
    {
        if d == 0 {
            self.get(di, u, v)
        } else if d == 1 {
            self.get(v, di, u)
        } else {
            self.get(u, v, di)
        }
    }

    /// The culled face mask of slab `i` along axis `d`, for one phase:
    /// `r[u][v]` is exactly `face_at(self@, neg@, pos@, size, d, i, u, v,
    /// phase2)`. The neighbor grids supply the voxels beyond the two
    /// boundary slabs and must have the chunk's own size.
    pub fn cull_slab(
        &self,
        neg: &Chunk,
        pos: &Chunk,
        d: usize,
        i: usize,
        phase2: bool,
    ) -> (r: Vec<Vec<Material>>)
        requires
            self.wf(),
            neg.wf(),
            pos.wf(),
            neg.spec_size() == self.spec_size(),
            pos.spec_size() == self.spec_size(),
            d < 3,
            i <= self.spec_size(),
        ensures
            mask_view(r) == slab_mask(
                self@,
                neg@,
                pos@,
                self.spec_size(),
                d as int,
                i as int,
                phase2,
            ),
    {
        let size = self.size();
        let ghost msk = slab_mask(self@, neg@, pos@, self.spec_size(), d as int, i as int, phase2);
        let mut r: Vec<Vec<Material>> = Vec::new();
        for u in 0..size
            invariant
                self.wf(),
                neg.wf(),
                pos.wf(),
                neg.spec_size() == self.spec_size(),
                pos.spec_size() == self.spec_size(),
                d < 3,
                i <= size,
                size == self.spec_size(),
                msk == slab_mask(self@, neg@, pos@, size as int, d as int, i as int, phase2),
                r@.len() == u,
                forall|a: int| 0 <= a < u ==> #[trigger] r@[a]@ == msk[a],
        {
            let mut row: Vec<Material> = Vec::new();
            for v in 0..size
                invariant
                    self.wf(),
                    neg.wf(),
                    pos.wf(),
                    neg.spec_size() == self.spec_size(),
                    pos.spec_size() == self.spec_size(),
                    d < 3,
                    i <= size,
                    u < size,
                    size == self.spec_size(),
                    msk == slab_mask(self@, neg@, pos@, size as int, d as int, i as int, phase2),
                    row@.len() == v,
                    forall|b: int| 0 <= b < v ==> row@[b] == msk[u as int][b],
            {
                let below = if i == 0 {
                    neg.get_axis(d, size - 1, u, v)
                } else {
                    self.get_axis(d, i - 1, u, v)
                };
                let above = if i == size {
                    pos.get_axis(d, 0, u, v)
                } else {
                    self.get_axis(d, i, u, v)
                };
                let face = if below.occupies(phase2) && !above.occupies(phase2) {
                    below
                } else if above.occupies(phase2) && !below.occupies(phase2) {
                    above
                } else {
                    Material::Air
                };
                row.push(face);
            }
            r.push(row);
            proof {
                assert(r@[u as int]@ =~= msk[u as int]);
            }
        }
        proof {
            assert(mask_view(r) =~~= msk);
        }
        r
    }

    /// Whether `(x, y, z)` addresses a voxel of this (possibly ragged) grid.
    pub open spec fn can_set(g: Seq<Seq<Seq<Material>>>, x: int, y: int, z: int) -> bool {
        &&& 0 <= x < g.len()
        &&& 0 <= y < g[x].len()
        &&& 0 <= z < g[x][y].len()
    }

    /// Replace the material at `(x, y, z)` if it is in bounds; report
    /// whether it was.
    pub fn try_set(&mut self, x: usize, y: usize, z: usize, m: Material) -> (r: bool)
        ensures
            r == Chunk::can_set(old(self)@, x as int, y as int, z as int),
            r ==> final(self)@ == old(self)@.update(
                x as int,
                old(self)@[x as int].update(
                    y as int,
                    old(self)@[x as int][y as int].update(z as int, m),
                ),
            ),
            !r ==> final(self)@ == old(self)@,
    {
        proof {
            assert(self@.len() == self.data@.len());
        }
        if x >= self.data.len() {
            return false;
        }
        proof {
            assert(self@[x as int].len() == self.data@[x as int]@.len());
        }
        if y >= self.data[x].len() {
            return false;
        }
        proof {
            assert(self@[x as int][y as int].len() == self.data@[x as int]@[y as int]@.len());
        }
        if z >= self.data[x][y].len() {
            return false;
        }
        let plane: &mut Vec<Vec<Material>> = &mut self.data[x];
        let row: &mut Vec<Material> = &mut plane[y];
        row[z] = m;
        proof {
            assert(self@ =~~= old(self)@.update(
                x as int,
                old(self)@[x as int].update(
                    y as int,
                    old(self)@[x as int][y as int].update(z as int, m),
                ),
            ));
        }
        true
    }

    /// Replace the material at `(x, y, z)`.
    pub fn set(&mut self, x: usize, y: usize, z: usize, m: Material)
        requires
            old(self).wf(),
            x < old(self).spec_size(),
            y < old(self).spec_size(),
            z < old(self).spec_size(),
        ensures
            final(self).wf(),
            final(self).spec_size() == old(self).spec_size(),
            final(self)@ == old(self)@.update(
                x as int,
                old(self)@[x as int].update(y as int, old(self)@[x as int][y as int].update(z as int, m)),
            ),
    {
        proof {
            assert(old(self)@.len() == old(self).data@.len());
            assert(old(self)@[x as int].len() == old(self).data@[x as int]@.len());
            assert(old(self)@[x as int][y as int].len()
                == old(self).data@[x as int]@[y as int]@.len());
        }
        let plane: &mut Vec<Vec<Material>> = &mut self.data[x];
        let row: &mut Vec<Material> = &mut plane[y];
        row[z] = m;
        proof {
            assert(self@ =~~= old(self)@.update(
                x as int,
                old(self)@[x as int].update(
                    y as int,
                    old(self)@[x as int][y as int].update(z as int, m),
                ),
            ));
        }
    }
}

} // verus!
