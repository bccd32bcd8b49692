//! Coordinate spaces of the voxel world.
//!
//! Three integer lattices are used, one per coordinate space:
//! - `WorldPos` is a position in world space, in increments of one block;
//! - `ChunkPos` is a chunk location, in increments of one chunk
//!   (`CHUNK_SIZE` blocks);
//! - a block's index within its home chunk is a triple in
//!   `[0, CHUNK_SIZE)`.

use vstd::prelude::*;

verus! {

/// Side length of a chunk, in blocks (world units).
pub const CHUNK_SIZE: i64 = 32;

/// Side length of a region, in chunks.
pub const REGION_SIZE: i64 = 4;

/// A position in world space, one unit per block.
#[derive(Clone, Copy, PartialEq, Eq, Structural, Debug)]
pub struct WorldPos {
    pub x: i64,
    pub y: i64,
    pub z: i64,
}

/// A chunk location on the chunk lattice.
#[derive(Clone, Copy, PartialEq, Eq, Structural, Debug)]
pub struct ChunkPos {
    pub x: i32,
    pub y: i32,
    pub z: i32,
}

impl View for WorldPos {
    type V = (int, int, int);

    open spec fn view(&self) -> (int, int, int) {
        (self.x as int, self.y as int, self.z as int)
    }
}

impl View for ChunkPos {
    type V = (int, int, int);

    open spec fn view(&self) -> (int, int, int) {
        (self.x as int, self.y as int, self.z as int)
    }
}

impl WorldPos {
    pub fn new(x: i64, y: i64, z: i64) -> (r: WorldPos)
        ensures
            r@ == (x as int, y as int, z as int),
    {
        WorldPos { x, y, z }
    }
}

impl ChunkPos {
    pub fn new(x: i32, y: i32, z: i32) -> (r: ChunkPos)
        ensures
            r@ == (x as int, y as int, z as int),
    {
        ChunkPos { x, y, z }
    }
}

/// The chunk coordinate that is representable on every axis: world
/// coordinates this far from the origin still land on an `i32` chunk lattice.
pub open spec fn world_in_chunk_range(w: (int, int, int)) -> bool {
    &&& i32::MIN * CHUNK_SIZE <= w.0 <= i32::MAX as int * CHUNK_SIZE + (CHUNK_SIZE - 1)
    &&& i32::MIN * CHUNK_SIZE <= w.1 <= i32::MAX as int * CHUNK_SIZE + (CHUNK_SIZE - 1)
    &&& i32::MIN * CHUNK_SIZE <= w.2 <= i32::MAX as int * CHUNK_SIZE + (CHUNK_SIZE - 1)
}

/// The chunk containing a world position: floor division by `CHUNK_SIZE`
/// on every axis (`/` on `int` is Euclidean, which is floor division for a
/// positive divisor).
pub open spec fn world_to_chunk_spec(w: (int, int, int)) -> (int, int, int) {
    (w.0 / CHUNK_SIZE as int, w.1 / CHUNK_SIZE as int, w.2 / CHUNK_SIZE as int)
}

/// One axis of `world_to_chunk`.
fn world_axis_to_chunk(w: i64) -> (c: i32)
    requires
        i32::MIN * CHUNK_SIZE <= w <= i32::MAX as int * CHUNK_SIZE + (CHUNK_SIZE - 1),
    ensures
        c == w as int / CHUNK_SIZE as int,
{
    let q = w.checked_div_euclid(CHUNK_SIZE).unwrap();
    q as i32
}

/// The chunk a world position lies in.
pub fn world_to_chunk(w: WorldPos) -> (c: ChunkPos)
    requires
        world_in_chunk_range(w@),
    ensures
        c@ == world_to_chunk_spec(w@),
{
    ChunkPos {
        x: world_axis_to_chunk(w.x),
        y: world_axis_to_chunk(w.y),
        z: world_axis_to_chunk(w.z),
    }
}

/// The world position of a chunk's center:
/// `chunk * CHUNK_SIZE + CHUNK_SIZE / 2` on every axis.
pub open spec fn chunk_to_world_spec(c: (int, int, int)) -> (int, int, int) {
    (
        c.0 * CHUNK_SIZE + CHUNK_SIZE / 2,
        c.1 * CHUNK_SIZE + CHUNK_SIZE / 2,
        c.2 * CHUNK_SIZE + CHUNK_SIZE / 2,
    )
}

/// The world position at the center of a chunk.
pub fn chunk_to_world(c: ChunkPos) -> (w: WorldPos)
    ensures
        w@ == chunk_to_world_spec(c@),
        world_in_chunk_range(w@),
{
    WorldPos {
        x: c.x as i64 * CHUNK_SIZE + CHUNK_SIZE / 2,
        y: c.y as i64 * CHUNK_SIZE + CHUNK_SIZE / 2,
        z: c.z as i64 * CHUNK_SIZE + CHUNK_SIZE / 2,
    }
}

/// The index of a block within its home chunk: Euclidean remainder by
/// `CHUNK_SIZE` on every axis, so every component lies in `[0, CHUNK_SIZE)`.
pub open spec fn in_chunk_spec(w: (int, int, int)) -> (int, int, int) {
    (w.0 % CHUNK_SIZE as int, w.1 % CHUNK_SIZE as int, w.2 % CHUNK_SIZE as int)
}

/// The index of a block within its home chunk.
pub fn in_chunk(w: WorldPos) -> (r: (usize, usize, usize))
    ensures
        (r.0 as int, r.1 as int, r.2 as int) == in_chunk_spec(w@),
        r.0 < CHUNK_SIZE && r.1 < CHUNK_SIZE && r.2 < CHUNK_SIZE,
{
    let x = w.x.checked_rem_euclid(CHUNK_SIZE).unwrap();
    let y = w.y.checked_rem_euclid(CHUNK_SIZE).unwrap();
    let z = w.z.checked_rem_euclid(CHUNK_SIZE).unwrap();
    (x as usize, y as usize, z as usize)
}

/// The first chunk of a region: multiplication by `REGION_SIZE`.
pub fn region_to_chunk(region: ChunkPos) -> (c: ChunkPos)
    requires
        i32::MIN <= region@.0 * REGION_SIZE <= i32::MAX,
        i32::MIN <= region@.1 * REGION_SIZE <= i32::MAX,
        i32::MIN <= region@.2 * REGION_SIZE <= i32::MAX,
    ensures
        c@ == (region@.0 * REGION_SIZE, region@.1 * REGION_SIZE, region@.2 * REGION_SIZE),
{
    ChunkPos {
        x: region.x * REGION_SIZE as i32,
        y: region.y * REGION_SIZE as i32,
        z: region.z * REGION_SIZE as i32,
    }
}

/// The region containing a chunk: floor division by `REGION_SIZE`.
pub fn chunk_to_region(c: ChunkPos) -> (r: ChunkPos)
    ensures
        r@ == (c@.0 / REGION_SIZE as int, c@.1 / REGION_SIZE as int, c@.2 / REGION_SIZE as int),
{
    ChunkPos {
        x: c.x.checked_div_euclid(REGION_SIZE as i32).unwrap(),
        y: c.y.checked_div_euclid(REGION_SIZE as i32).unwrap(),
        z: c.z.checked_div_euclid(REGION_SIZE as i32).unwrap(),
    }
}

/// A chunk's linear index within its region, row-major over x, then y, then z.
pub fn in_region(c: ChunkPos) -> (r: usize)
    ensures
        r == (c@.0 % REGION_SIZE as int) + (c@.1 % REGION_SIZE as int) * REGION_SIZE
            + (c@.2 % REGION_SIZE as int) * REGION_SIZE * REGION_SIZE,
        r < REGION_SIZE * REGION_SIZE * REGION_SIZE,
{
    let x = c.x.checked_rem_euclid(REGION_SIZE as i32).unwrap() as usize;
    let y = c.y.checked_rem_euclid(REGION_SIZE as i32).unwrap() as usize;
    let z = c.z.checked_rem_euclid(REGION_SIZE as i32).unwrap() as usize;
    assert(x < 4 && y < 4 && z < 4);
    x + y * 4 + z * 16
}

/// Offsets of the six face-adjacent neighbors, in the fixed order
/// -x, +x, -y, +y, -z, +z.
pub open spec fn neighbor_offset(k: int) -> (int, int, int) {
    if k == 0 {
        (-1, 0, 0)
    } else if k == 1 {
        (1, 0, 0)
    } else if k == 2 {
        (0, -1, 0)
    } else if k == 3 {
        (0, 1, 0)
    } else if k == 4 {
        (0, 0, -1)
    } else {
        (0, 0, 1)
    }
}

/// Componentwise sum of a chunk coordinate and an offset.
pub open spec fn pos_plus(c: (int, int, int), o: (int, int, int)) -> (int, int, int) {
    (c.0 + o.0, c.1 + o.1, c.2 + o.2)
}

/// True when every axis of `c` is strictly inside the `i32` range, so that
/// all six neighbor coordinates are representable.
pub open spec fn has_room_for_neighbors(c: (int, int, int)) -> bool {
    &&& i32::MIN < c.0 < i32::MAX
    &&& i32::MIN < c.1 < i32::MAX
    &&& i32::MIN < c.2 < i32::MAX
}

/// The six face-adjacent neighbor coordinates of `idx`, in the fixed order
/// -x, +x, -y, +y, -z, +z.
pub fn neighbors(idx: ChunkPos) -> (r: Vec<ChunkPos>)
    requires
        has_room_for_neighbors(idx@),
    ensures
        r@.len() == 6,
        forall|k: int| 0 <= k < 6 ==> r@[k]@ == pos_plus(idx@, neighbor_offset(k)),
{
    let mut r: Vec<ChunkPos> = Vec::new();
    r.push(ChunkPos { x: idx.x - 1, y: idx.y, z: idx.z });
    r.push(ChunkPos { x: idx.x + 1, y: idx.y, z: idx.z });
    r.push(ChunkPos { x: idx.x, y: idx.y - 1, z: idx.z });
    r.push(ChunkPos { x: idx.x, y: idx.y + 1, z: idx.z });
    r.push(ChunkPos { x: idx.x, y: idx.y, z: idx.z - 1 });
    r.push(ChunkPos { x: idx.x, y: idx.y, z: idx.z + 1 });
    r
}

/// Squared Euclidean distance between two chunk coordinates, in chunks.
pub open spec fn chunk_dist_sq(a: (int, int, int), b: (int, int, int)) -> int {
    (a.0 - b.0) * (a.0 - b.0) + (a.1 - b.1) * (a.1 - b.1) + (a.2 - b.2) * (a.2 - b.2)
}

/// Squared Euclidean distance between two world positions, in blocks.
pub open spec fn world_dist_sq(a: (int, int, int), b: (int, int, int)) -> int {
    (a.0 - b.0) * (a.0 - b.0) + (a.1 - b.1) * (a.1 - b.1) + (a.2 - b.2) * (a.2 - b.2)
}

/// A square grows no faster than the square of a bound on its argument.
pub proof fn lemma_sq_bound(x: int, m: int)
    by (nonlinear_arith)
    requires
        0 <= m,
        -m <= x <= m,
    ensures
        0 <= x * x <= m * m,
{
}

/// Squared Euclidean distance between two chunk coordinates.
pub fn chunk_dist_sq_exec(a: ChunkPos, b: ChunkPos) -> (r: i128)
    ensures
        r == chunk_dist_sq(a@, b@),
{
    let dx = a.x as i128 - b.x as i128;
    let dy = a.y as i128 - b.y as i128;
    let dz = a.z as i128 - b.z as i128;
    proof {
        lemma_sq_bound(dx as int, 0x1_0000_0000);
        lemma_sq_bound(dy as int, 0x1_0000_0000);
        lemma_sq_bound(dz as int, 0x1_0000_0000);
    }
    dx * dx + dy * dy + dz * dz
}

/// Squared Euclidean distance between two world positions.
pub fn world_dist_sq_exec(a: WorldPos, b: WorldPos) -> (r: i128)
    requires
        world_in_chunk_range(a@),
        world_in_chunk_range(b@),
    ensures
        r == world_dist_sq(a@, b@),
{
    let dx = a.x as i128 - b.x as i128;
    let dy = a.y as i128 - b.y as i128;
    let dz = a.z as i128 - b.z as i128;
    proof {
        lemma_sq_bound(dx as int, 0x40_0000_0000);
        lemma_sq_bound(dy as int, 0x40_0000_0000);
        lemma_sq_bound(dz as int, 0x40_0000_0000);
    }
    dx * dx + dy * dy + dz * dz
}

} // verus!
