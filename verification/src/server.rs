//! The chunk authority: canonical chunk table, reference counts, pending
//! orders and connected viewpoints.
//!
//! The authority owns canonical state only. On every viewpoint movement it
//! computes the spherical visibility sets around the old and new chunk
//! coordinates, unloads what only the old set held (decrementing reference
//! counts and evicting at zero), and partitions what only the new set holds
//! into already-resident chunks (delivered at once, reference count raised)
//! and chunks to fetch from the worker (recorded as a pending order). A
//! worker batch is matched against pending orders by exact coordinate-list
//! equality; stale decrements are reported, never fatal.

use vstd::prelude::*;

use crate::chunk::Chunk;
use crate::coords::{
    chunk_dist_sq, in_chunk_spec, lemma_sq_bound, world_in_chunk_range, world_to_chunk,
    world_to_chunk_spec, ChunkPos, WorldPos,
};
use crate::material::Material;
use crate::table::{bump, ChunkTable, DecOutcome};

verus! {

/// Whether a coordinate occurs in a list of chunk positions.
pub open spec fn has_coord(s: Seq<ChunkPos>, k: (int, int, int)) -> bool {
    exists|j: int| 0 <= j < s.len() && (#[trigger] s[j])@ == k
}

/// No coordinate occurs twice in the list.
pub open spec fn coords_distinct(s: Seq<ChunkPos>) -> bool {
    forall|i: int, j: int| 0 <= i < j < s.len() ==> (#[trigger] s[i])@ != (#[trigger] s[j])@
}

/// Whether chunk coordinate `c` lies within `radius` chunks (Euclidean) of
/// `center`: the visibility ball of a viewpoint standing in `center`.
pub open spec fn in_ball(center: (int, int, int), radius: int, c: (int, int, int)) -> bool {
    chunk_dist_sq(c, center) <= radius * radius
}

/// Strict row-major order on offsets from `center`: whether `c - center`
/// comes before `(ox, oy, oz)` in the scan of the visibility cube.
pub open spec fn off_lt(
    c: (int, int, int),
    center: (int, int, int),
    ox: int,
    oy: int,
    oz: int,
) -> bool {
    let dx = c.0 - center.0;
    let dy = c.1 - center.1;
    let dz = c.2 - center.2;
    dx < ox || (dx == ox && (dy < oy || (dy == oy && dz < oz)))
}

/// A coordinate in the ball offsets by at most `radius` on every axis.
proof fn lemma_ball_bounds(center: (int, int, int), radius: int, c: (int, int, int))
    by (nonlinear_arith)
    requires
        0 <= radius,
        in_ball(center, radius, c),
    ensures
        -radius <= c.0 - center.0 <= radius,
        -radius <= c.1 - center.1 <= radius,
        -radius <= c.2 - center.2 <= radius,
{
}

/// The largest supported draw radius, in chunks: a machine limit keeping
/// squared distances well inside `i64`.
pub const MAX_DRAW_CHUNKS: i64 = 32767;

/// A viewpoint position the authority can work with: its world coordinates
/// land on the chunk lattice, far enough from the edge that the whole
/// visibility ball is representable.
pub open spec fn pos_valid(w: (int, int, int), rad: int) -> bool {
    &&& world_in_chunk_range(w)
    &&& center_has_room(world_to_chunk_spec(w), rad)
}

/// A chunk center far enough from the `i32` edge that the whole ball of
/// `radius` around it is representable.
pub open spec fn center_has_room(center: (int, int, int), radius: int) -> bool {
    &&& i32::MIN + radius <= center.0 <= i32::MAX - radius
    &&& i32::MIN + radius <= center.1 <= i32::MAX - radius
    &&& i32::MIN + radius <= center.2 <= i32::MAX - radius
}

/// All chunk coordinates within `radius` chunks (Euclidean, not Chebyshev)
/// of `center`: each returned coordinate is in the ball, every ball
/// coordinate is returned, and no coordinate repeats.
pub fn chunks_around(center: ChunkPos, radius: i64) -> (r: Vec<ChunkPos>)
    requires
        0 <= radius <= MAX_DRAW_CHUNKS,
        center_has_room(center@, radius as int),
    ensures
        forall|j: int| 0 <= j < r@.len() ==> in_ball(center@, radius as int, (#[trigger] r@[j])@),
        forall|c: (int, int, int)|
            in_ball(center@, radius as int, c) ==> exists|j: int|
                0 <= j < r@.len() && (#[trigger] r@[j])@ == c,
        forall|i: int, j: int| 0 <= i < j < r@.len() ==> (#[trigger] r@[i])@ != (#[trigger] r@[j])@,
{
    let ghost rad: int = radius as int;
    let mut res: Vec<ChunkPos> = Vec::new();
    proof {
        assert forall|c: (int, int, int)|
            in_ball(center@, rad, c) && off_lt(c, center@, -rad, -rad, -rad) implies false by {
            lemma_ball_bounds(center@, rad, c);
        }
    }
    let mut ox: i64 = -radius;
    while ox <= radius
        invariant
            0 <= radius <= MAX_DRAW_CHUNKS,
            center_has_room(center@, radius as int),
            -radius <= ox <= radius + 1,
            forall|j: int|
                0 <= j < res@.len() ==> in_ball(center@, radius as int, (#[trigger] res@[j])@)
                    && off_lt(res@[j]@, center@, ox as int, -(radius as int), -(radius as int)),
            forall|c: (int, int, int)|
                in_ball(center@, radius as int, c) && off_lt(
                    c,
                    center@,
                    ox as int,
                    -(radius as int),
                    -(radius as int),
                ) ==> exists|j: int| 0 <= j < res@.len() && (#[trigger] res@[j])@ == c,
            forall|i: int, j: int|
                0 <= i < j < res@.len() ==> (#[trigger] res@[i])@ != (#[trigger] res@[j])@,
        decreases radius + 1 - ox,
    {
        let mut oy: i64 = -radius;
        while oy <= radius
            invariant
                0 <= radius <= MAX_DRAW_CHUNKS,
                center_has_room(center@, radius as int),
                -radius <= ox <= radius,
                -radius <= oy <= radius + 1,
                forall|j: int|
                    0 <= j < res@.len() ==> in_ball(center@, radius as int, (#[trigger] res@[j])@)
                        && off_lt(res@[j]@, center@, ox as int, oy as int, -(radius as int)),
                forall|c: (int, int, int)|
                    in_ball(center@, radius as int, c) && off_lt(
                        c,
                        center@,
                        ox as int,
                        oy as int,
                        -(radius as int),
                    ) ==> exists|j: int| 0 <= j < res@.len() && (#[trigger] res@[j])@ == c,
                forall|i: int, j: int|
                    0 <= i < j < res@.len() ==> (#[trigger] res@[i])@ != (#[trigger] res@[j])@,
            decreases radius + 1 - oy,
        {
            let mut oz: i64 = -radius;
            while oz <= radius
                invariant
                    0 <= radius <= MAX_DRAW_CHUNKS,
                    center_has_room(center@, radius as int),
                    -radius <= ox <= radius,
                    -radius <= oy <= radius,
                    -radius <= oz <= radius + 1,
                    forall|j: int|
                        0 <= j < res@.len() ==> in_ball(
                            center@,
                            radius as int,
                            (#[trigger] res@[j])@,
                        ) && off_lt(res@[j]@, center@, ox as int, oy as int, oz as int),
                    forall|c: (int, int, int)|
                        in_ball(center@, radius as int, c) && off_lt(
                            c,
                            center@,
                            ox as int,
                            oy as int,
                            oz as int,
                        ) ==> exists|j: int| 0 <= j < res@.len() && (#[trigger] res@[j])@ == c,
                    forall|i: int, j: int|
                        0 <= i < j < res@.len() ==> (#[trigger] res@[i])@ != (#[trigger] res@[j])@,
                decreases radius + 1 - oz,
            {
                proof {
                    lemma_sq_bound(ox as int, MAX_DRAW_CHUNKS as int);
                    lemma_sq_bound(oy as int, MAX_DRAW_CHUNKS as int);
                    lemma_sq_bound(oz as int, MAX_DRAW_CHUNKS as int);
                    lemma_sq_bound(radius as int, MAX_DRAW_CHUNKS as int);
                }
                let d2 = ox * ox + oy * oy + oz * oz;
                let ghost res_old = res@;
                if d2 <= radius * radius {
                    let c = ChunkPos {
                        x: (center.x as i64 + ox) as i32,
                        y: (center.y as i64 + oy) as i32,
                        z: (center.z as i64 + oz) as i32,
                    };
                    proof {
                        assert(c@ == (
                            center@.0 + ox as int,
                            center@.1 + oy as int,
                            center@.2 + oz as int,
                        ));
                        assert(in_ball(center@, radius as int, c@));
                    }
                    res.push(c);
                }
                proof {
                    assert forall|c2: (int, int, int)|
                        in_ball(center@, radius as int, c2) && off_lt(
                            c2,
                            center@,
                            ox as int,
                            oy as int,
                            oz as int + 1,
                        ) implies exists|j: int| 0 <= j < res@.len() && (#[trigger] res@[j])@
                        == c2 by {
                        if off_lt(c2, center@, ox as int, oy as int, oz as int) {
                            let j = choose|j: int|
                                0 <= j < res_old.len() && (#[trigger] res_old[j])@ == c2;
                            assert(res@[j]@ == c2);
                        } else {
                            assert(c2 == (
                                center@.0 + ox as int,
                                center@.1 + oy as int,
                                center@.2 + oz as int,
                            ));
                            assert(chunk_dist_sq(c2, center@) == ox as int * ox as int
                                + oy as int * oy as int + oz as int * oz as int);
                            assert(res@[res@.len() - 1]@ == c2);
                        }
                    }
                }
                oz += 1;
            }
            proof {
                assert forall|c2: (int, int, int)|
                    in_ball(center@, radius as int, c2) && off_lt(
                        c2,
                        center@,
                        ox as int,
                        oy as int + 1,
                        -(radius as int),
                    ) implies off_lt(c2, center@, ox as int, oy as int, radius as int + 1) by {
                    lemma_ball_bounds(center@, radius as int, c2);
                }
                assert forall|j: int| 0 <= j < res@.len() implies off_lt(
                    (#[trigger] res@[j])@,
                    center@,
                    ox as int,
                    oy as int + 1,
                    -(radius as int),
                ) by {
                    lemma_ball_bounds(center@, radius as int, res@[j]@);
                }
            }
            oy += 1;
        }
        proof {
            assert forall|c2: (int, int, int)|
                in_ball(center@, radius as int, c2) && off_lt(
                    c2,
                    center@,
                    ox as int + 1,
                    -(radius as int),
                    -(radius as int),
                ) implies off_lt(c2, center@, ox as int, radius as int + 1, -(radius as int)) by {
                lemma_ball_bounds(center@, radius as int, c2);
            }
            assert forall|j: int| 0 <= j < res@.len() implies off_lt(
                (#[trigger] res@[j])@,
                center@,
                ox as int + 1,
                -(radius as int),
                -(radius as int),
            ) by {
                lemma_ball_bounds(center@, radius as int, res@[j]@);
            }
        }
        ox += 1;
    }
    proof {
        assert forall|c: (int, int, int)| in_ball(center@, radius as int, c) implies exists|j: int|
            0 <= j < res@.len() && (#[trigger] res@[j])@ == c by {
            lemma_ball_bounds(center@, radius as int, c);
            assert(off_lt(c, center@, radius as int + 1, -(radius as int), -(radius as int)));
        }
    }
    res
}

/// Whether `k` occurs in `s` (linear scan).
pub fn has_coord_exec(s: &Vec<ChunkPos>, k: ChunkPos) -> (r: bool)
    ensures
        r == has_coord(s@, k@),
{
    let n = s.len();
    for i in 0..n
        invariant
            n == s@.len(),
            forall|j: int| 0 <= j < i ==> (#[trigger] s@[j])@ != k@,
    {
        let c = s[i];
        if c.x == k.x && c.y == k.y && c.z == k.z {
            proof {
                assert(s@[i as int]@ == k@);
            }
            return true;
        }
    }
    false
}

/// The coordinates of `a` that do not occur in `b`, in `a`'s order.
pub fn coords_diff(a: &Vec<ChunkPos>, b: &Vec<ChunkPos>) -> (r: Vec<ChunkPos>)
    requires
        coords_distinct(a@),
    ensures
        forall|k: (int, int, int)| has_coord(r@, k) <==> has_coord(a@, k) && !has_coord(b@, k),
        coords_distinct(r@),
        forall|j: int| 0 <= j < r@.len() ==> has_coord(a@, (#[trigger] r@[j])@),
{
    let n = a.len();
    let mut r: Vec<ChunkPos> = Vec::new();
    for i in 0..n
        invariant
            n == a@.len(),
            coords_distinct(a@),
            coords_distinct(r@),
            forall|j: int|
                0 <= j < r@.len() ==> has_coord(a@, (#[trigger] r@[j])@) && !has_coord(
                    b@,
                    r@[j]@,
                ),
            forall|k: (int, int, int)|
                #[trigger] has_coord(r@, k) <==> (exists|j: int|
                    0 <= j < i && (#[trigger] a@[j])@ == k) && !has_coord(b@, k),
    {
        let c = a[i];
        let ghost r_old = r@;
        if !has_coord_exec(b, c) {
            proof {
                assert forall|j: int| 0 <= j < r_old.len() implies (#[trigger] r_old[j])@
                    != c@ by {
                    if r_old[j]@ == c@ {
                        assert(has_coord(r@, r_old[j]@));
                        let jj = choose|jj: int| 0 <= jj < i && (#[trigger] a@[jj])@ == r_old[j]@;
                        assert(a@[jj]@ == a@[i as int]@);
                    }
                }
            }
            r.push(c);
        }
        proof {
            assert forall|k: (int, int, int)| #[trigger] has_coord(r@, k) implies (exists|j: int|
                0 <= j < i + 1 && (#[trigger] a@[j])@ == k) && !has_coord(b@, k) by {
                let j = choose|j: int| 0 <= j < r@.len() && (#[trigger] r@[j])@ == k;
                if j < r_old.len() {
                    assert(has_coord(r_old, k));
                } else {
                    assert(r@[j]@ == a@[i as int]@);
                }
            }
            assert forall|k: (int, int, int)|
                (exists|j: int| 0 <= j < i + 1 && (#[trigger] a@[j])@ == k) && !has_coord(
                    b@,
                    k,
                ) implies #[trigger] has_coord(r@, k) by {
                let j = choose|j: int| 0 <= j < i + 1 && (#[trigger] a@[j])@ == k;
                if j < i {
                    assert(has_coord(r_old, k));
                    let jj = choose|jj: int| 0 <= jj < r_old.len() && (#[trigger] r_old[jj])@ == k;
                    assert(r@[jj]@ == k);
                } else {
                    assert(a@[i as int]@ == k);
                    assert(r@[r@.len() - 1]@ == k);
                }
            }
        }
    }
    proof {
        assert forall|k: (int, int, int)| #[trigger] has_coord(a@, k) implies (exists|j: int|
            0 <= j < n && (#[trigger] a@[j])@ == k) by {
        }
    }
    r
}

/// One connected viewpoint: its identity and last known position.
pub struct Player {
    pub id: u64,
    pub pos: WorldPos,
}

/// A pending order: the exact coordinate list sent to the chunk worker, and
/// the viewpoint waiting for it.
pub struct Order {
    pub coords: Vec<ChunkPos>,
    pub player: u64,
}

/// Mathematical model of an order: its coordinate list and requester.
pub type OrderModel = (Seq<(int, int, int)>, int);

/// The chunk authority: the canonical chunk table with reference counts,
/// the connected viewpoints, and the pending orders awaiting the worker.
pub struct Server {
    table: ChunkTable,
    players: Vec<Player>,
    orders: Vec<Order>,
    draw_chunks: i64,
}

impl Server {
    /// The table is well-formed, the draw radius is in range, and viewpoint
    /// identities are unique.
    pub closed spec fn wf(&self) -> bool {
        &&& self.table.wf()
        &&& 0 <= self.draw_chunks <= MAX_DRAW_CHUNKS
        &&& forall|i: int, j: int|
            0 <= i < j < self.players@.len() ==> (#[trigger] self.players@[i]).id != (
            #[trigger] self.players@[j]).id
        &&& forall|i: int|
            0 <= i < self.players@.len() ==> pos_valid(
                (#[trigger] self.players@[i]).pos@,
                self.draw_chunks as int,
            )
    }

    /// Whether a chunk coordinate is resident in the canonical table.
    pub closed spec fn resident(&self, k: (int, int, int)) -> bool {
        self.table.resident(k)
    }

    /// The reference count of a chunk coordinate; zero when not resident.
    pub closed spec fn refcount(&self, k: (int, int, int)) -> int {
        self.table.refcount(k)
    }

    /// The canonical voxel grid of a resident coordinate.
    pub closed spec fn grid(&self, k: (int, int, int)) -> Seq<Seq<Seq<Material>>> {
        self.table.grid(k)
    }

    /// The configured draw radius, in chunks.
    pub closed spec fn spec_draw_chunks(&self) -> int {
        self.draw_chunks as int
    }

    /// Whether a viewpoint with this identity is connected.
    pub closed spec fn has_player(&self, id: int) -> bool {
        exists|i: int| 0 <= i < self.players@.len() && (#[trigger] self.players@[i]).id == id
    }

    /// The position of a connected viewpoint.
    pub closed spec fn player_pos(&self, id: int) -> (int, int, int) {
        let i = choose|i: int|
            0 <= i < self.players@.len() && (#[trigger] self.players@[i]).id == id;
        self.players@[i].pos@
    }

    /// The number of connected viewpoints.
    pub closed spec fn player_count(&self) -> int {
        self.players@.len() as int
    }

    /// The pending orders, oldest first.
    pub closed spec fn spec_orders(&self) -> Seq<OrderModel> {
        self.orders@.map_values(
            |o: Order| (o.coords@.map_values(|c: ChunkPos| c@), o.player as int),
        )
    }

    /// The refcount invariant, lifted to the authority: a chunk coordinate
    /// is in the canonical table if and only if its reference count is
    /// positive, in every reachable state (every operation preserves `wf`).
    pub proof fn lemma_refcount_invariant(&self, k: (int, int, int))
        requires
            self.wf(),
        ensures
            self.resident(k) <==> self.refcount(k) > 0,
    {
        self.table.lemma_refcount_invariant(k);
    }

    /// A fresh authority: no chunks, no viewpoints, no orders.
    pub fn new(draw_chunks: i64) -> (r: Server)
        requires
            0 <= draw_chunks <= MAX_DRAW_CHUNKS,
        ensures
            r.wf(),
            r.spec_draw_chunks() == draw_chunks,
            forall|k: (int, int, int)| !r.resident(k) && r.refcount(k) == 0,
            r.player_count() == 0,
            forall|id: int| !r.has_player(id),
            r.spec_orders() == Seq::<OrderModel>::empty(),
    {
        let r = Server {
            table: ChunkTable::new(),
            players: Vec::new(),
            orders: Vec::new(),
            draw_chunks,
        };
        proof {
            assert(r.spec_orders() =~= Seq::<OrderModel>::empty());
        }
        r
    }

    /// Raise the reference count of every candidate that is already
    /// resident and collect its data for immediate delivery; the rest is
    /// returned as the list to fetch from the worker. Touches only the
    /// table.
    fn acquire(&mut self, cands: &Vec<ChunkPos>) -> (r: (Vec<ChunkPos>, Vec<(ChunkPos, Chunk)>))
        requires
            old(self).wf(),
            coords_distinct(cands@),
        ensures
            final(self).wf(),
            final(self).players == old(self).players,
            final(self).orders == old(self).orders,
            final(self).draw_chunks == old(self).draw_chunks,
            forall|k: (int, int, int)|
                final(self).refcount(k) == if has_coord(cands@, k) && old(self).resident(k) {
                    bump(old(self).refcount(k), 1)
                } else {
                    old(self).refcount(k)
                },
            forall|k: (int, int, int)| final(self).resident(k) == old(self).resident(k),
            forall|k: (int, int, int)|
                old(self).resident(k) ==> final(self).grid(k) == old(self).grid(k),
            coords_distinct(r.0@),
            forall|k: (int, int, int)|
                has_coord(r.0@, k) <==> has_coord(cands@, k) && !old(self).resident(k),
            forall|j: int|
                0 <= j < r.1@.len() ==> old(self).resident((#[trigger] r.1@[j]).0@)
                    && has_coord(cands@, r.1@[j].0@) && r.1@[j].1@ == old(self).grid(r.1@[j].0@),
            forall|k: (int, int, int)|
                has_coord(cands@, k) && old(self).resident(k) ==> exists|j: int|
                    0 <= j < r.1@.len() && (#[trigger] r.1@[j]).0@ == k,
    {
        let n = cands.len();
        let mut fetch: Vec<ChunkPos> = Vec::new();
        let mut deliver: Vec<(ChunkPos, Chunk)> = Vec::new();
        for i in 0..n
            invariant
                n == cands@.len(),
                coords_distinct(cands@),
                old(self).wf(),
                self.wf(),
                self.players == old(self).players,
                self.orders == old(self).orders,
                self.draw_chunks == old(self).draw_chunks,
                forall|k: (int, int, int)|
                    self.table.refcount(k) == if (exists|j: int|
                        0 <= j < i && (#[trigger] cands@[j])@ == k) && old(self).table.resident(k) {
                        bump(old(self).table.refcount(k), 1)
                    } else {
                        old(self).table.refcount(k)
                    },
                forall|k: (int, int, int)| self.table.resident(k) == old(self).table.resident(k),
                forall|k: (int, int, int)|
                    old(self).table.resident(k) ==> self.table.grid(k) == old(self).table.grid(k),
                coords_distinct(fetch@),
                forall|k: (int, int, int)|
                    #[trigger] has_coord(fetch@, k) <==> (exists|j: int|
                        0 <= j < i && (#[trigger] cands@[j])@ == k) && !old(self).table.resident(k),
                forall|j: int|
                    0 <= j < deliver@.len() ==> old(self).table.resident((#[trigger] deliver@[j]).0@)
                        && has_coord(cands@, deliver@[j].0@) && deliver@[j].1@ == old(self).table.grid(
                        deliver@[j].0@,
                    ),
                forall|k: (int, int, int)|
                    (exists|j: int| 0 <= j < i && (#[trigger] cands@[j])@ == k) && old(
                        self,
                    ).resident(k) ==> exists|j: int|
                        0 <= j < deliver@.len() && (#[trigger] deliver@[j]).0@ == k,
        {
            let c = cands[i];
            let ghost fetch_old = fetch@;
            let ghost deliver_old = deliver@;
            proof {
                assert(self.table.refcount(c@) == old(self).table.refcount(c@)) by {
                    if exists|j: int| 0 <= j < i && (#[trigger] cands@[j])@ == c@ {
                        let j = choose|j: int| 0 <= j < i && (#[trigger] cands@[j])@ == c@;
                        assert(cands@[j]@ != cands@[i as int]@);
                    }
                }
            }
            let resident = self.table.contains(c);
            if resident {
                let dup = match self.table.get(c) {
                    Some(ch) => ch.duplicate(),
                    None => Chunk::new(1, Material::Air),
                };
                deliver.push((c, dup));
                self.table.add_refs(c, 1);
            } else {
                proof {
                    assert forall|j: int| 0 <= j < fetch_old.len() implies (
                    #[trigger] fetch_old[j])@ != c@ by {
                        if fetch_old[j]@ == c@ {
                            assert(has_coord(fetch@, c@));
                            let jj = choose|jj: int|
                                0 <= jj < i && (#[trigger] cands@[jj])@ == c@;
                            assert(cands@[jj]@ == cands@[i as int]@);
                        }
                    }
                }
                fetch.push(c);
            }
            proof {
                assert forall|k: (int, int, int)| #[trigger] has_coord(fetch@, k) implies (
                exists|j: int| 0 <= j < i + 1 && (#[trigger] cands@[j])@ == k) && !old(
                    self,
                ).resident(k) by {
                    let j = choose|j: int| 0 <= j < fetch@.len() && (#[trigger] fetch@[j])@ == k;
                    if j < fetch_old.len() {
                        assert(has_coord(fetch_old, k));
                    } else {
                        assert(fetch@[j]@ == c@);
                        assert(cands@[i as int]@ == k);
                    }
                }
                assert forall|k: (int, int, int)|
                    (exists|j: int| 0 <= j < i + 1 && (#[trigger] cands@[j])@ == k) && !old(
                        self,
                    ).resident(k) implies #[trigger] has_coord(fetch@, k) by {
                    let j = choose|j: int| 0 <= j < i + 1 && (#[trigger] cands@[j])@ == k;
                    if j < i {
                        assert(has_coord(fetch_old, k));
                        let jj = choose|jj: int|
                            0 <= jj < fetch_old.len() && (#[trigger] fetch_old[jj])@ == k;
                        assert(fetch@[jj]@ == k);
                    } else {
                        assert(fetch@[fetch@.len() - 1]@ == k);
                    }
                }
                assert forall|k: (int, int, int)|
                    (exists|j: int| 0 <= j < i + 1 && (#[trigger] cands@[j])@ == k) && old(
                        self,
                    ).resident(k) implies exists|j: int|
                        0 <= j < deliver@.len() && (#[trigger] deliver@[j]).0@ == k by {
                    let j = choose|j: int| 0 <= j < i + 1 && (#[trigger] cands@[j])@ == k;
                    if j < i {
                        let jj = choose|jj: int|
                            0 <= jj < deliver_old.len() && (#[trigger] deliver_old[jj]).0@ == k;
                        assert(deliver@[jj].0@ == k);
                    } else {
                        assert(deliver@[deliver@.len() - 1].0@ == k);
                    }
                }
                assert forall|k: (int, int, int)|
                    self.table.refcount(k) == (if (exists|j: int|
                        0 <= j < i + 1 && (#[trigger] cands@[j])@ == k) && old(self).table.resident(k) {
                        bump(old(self).table.refcount(k), 1)
                    } else {
                        old(self).table.refcount(k)
                    }) by {
                    if exists|j: int| 0 <= j < i + 1 && (#[trigger] cands@[j])@ == k {
                        let j = choose|j: int| 0 <= j < i + 1 && (#[trigger] cands@[j])@ == k;
                        if j < i {
                            assert(cands@[j]@ != cands@[i as int]@);
                            assert(k != c@);
                            assert(exists|jj: int| 0 <= jj < i && (#[trigger] cands@[jj])@ == k);
                        } else {
                            assert(k == c@);
                            assert(!(exists|jj: int|
                                0 <= jj < i && (#[trigger] cands@[jj])@ == k)) by {
                                if exists|jj: int| 0 <= jj < i && (#[trigger] cands@[jj])@ == k {
                                    let jj = choose|jj: int|
                                        0 <= jj < i && (#[trigger] cands@[jj])@ == k;
                                    assert(cands@[jj]@ != cands@[i as int]@);
                                }
                            }
                        }
                    } else {
                        assert(k != c@) by {
                            if k == c@ {
                                assert(cands@[i as int]@ == k);
                            }
                        }
                        assert(!(exists|jj: int| 0 <= jj < i && (#[trigger] cands@[jj])@ == k));
                    }
                }
            }
        }
                proof {
            assert forall|k: (int, int, int)| #[trigger] has_coord(cands@, k) implies exists|j: int|
                0 <= j < n && (#[trigger] cands@[j])@ == k by {}
            assert forall|k: (int, int, int)|
                #![trigger self.refcount(k)]
                #![trigger self.resident(k)]
                #![trigger self.grid(k)]
                #![trigger old(self).refcount(k)]
                #![trigger old(self).resident(k)]
                #![trigger old(self).grid(k)]
                self.refcount(k) == self.table.refcount(k) && old(self).refcount(k) == old(
                    self,
                ).table.refcount(k) && self.resident(k) == self.table.resident(k) && old(
                    self,
                ).resident(k) == old(self).table.resident(k) && self.grid(k) == self.table.grid(k)
                && old(self).grid(k) == old(self).table.grid(k) by {}
        }
        let result = (fetch, deliver);
        proof {
            assert forall|k: (int, int, int)|
                has_coord(cands@, k) && old(self).resident(k) implies exists|j: int|
                    0 <= j < result.1@.len() && (#[trigger] result.1@[j]).0@ == k by {
                assert(old(self).table.resident(k));
                assert(exists|j: int| 0 <= j < n && (#[trigger] cands@[j])@ == k);
                let jw = choose|j: int|
                    0 <= j < result.1@.len() && (#[trigger] result.1@[j]).0@ == k;
                assert(0 <= jw < result.1@.len() && result.1@[jw].0@ == k);
            }
        }
        result
    }

    /// Lower the reference count of every candidate; a candidate that was
    /// not resident is collected as stale (reported, never fatal). Chunks
    /// whose count reaches zero are evicted. Touches only the table.
    #[verifier::rlimit(50)]
    fn release(&mut self, cands: &Vec<ChunkPos>) -> (stale: Vec<ChunkPos>)
        requires
            old(self).wf(),
            coords_distinct(cands@),
        ensures
            final(self).wf(),
            final(self).players == old(self).players,
            final(self).orders == old(self).orders,
            final(self).draw_chunks == old(self).draw_chunks,
            forall|k: (int, int, int)|
                final(self).refcount(k) == if has_coord(cands@, k) && old(self).refcount(k) > 0 {
                    old(self).refcount(k) - 1
                } else {
                    old(self).refcount(k)
                },
            forall|k: (int, int, int)|
                final(self).resident(k) == (old(self).resident(k) && !(has_coord(cands@, k) && old(
                    self,
                ).refcount(k) == 1)),
            forall|k: (int, int, int)|
                final(self).resident(k) ==> final(self).grid(k) == old(self).grid(k),
            coords_distinct(stale@),
            forall|k: (int, int, int)|
                has_coord(stale@, k) <==> has_coord(cands@, k) && !old(self).resident(k),
    {
        let n = cands.len();
        let mut stale: Vec<ChunkPos> = Vec::new();
        for i in 0..n
            invariant
                n == cands@.len(),
                coords_distinct(cands@),
                old(self).wf(),
                self.wf(),
                self.players == old(self).players,
                self.orders == old(self).orders,
                self.draw_chunks == old(self).draw_chunks,
                forall|k: (int, int, int)|
                    self.table.refcount(k) == if (exists|j: int|
                        0 <= j < i && (#[trigger] cands@[j])@ == k) && old(self).table.refcount(k) > 0 {
                        old(self).table.refcount(k) - 1
                    } else {
                        old(self).table.refcount(k)
                    },
                forall|k: (int, int, int)|
                    self.table.resident(k) == (old(self).table.resident(k) && !((exists|j: int|
                        0 <= j < i && (#[trigger] cands@[j])@ == k) && old(self).table.refcount(k)
                        == 1)),
                forall|k: (int, int, int)|
                    self.table.resident(k) ==> self.table.grid(k) == old(self).table.grid(k),
                coords_distinct(stale@),
                forall|k: (int, int, int)|
                    #[trigger] has_coord(stale@, k) <==> (exists|j: int|
                        0 <= j < i && (#[trigger] cands@[j])@ == k) && !old(self).table.resident(k),
        {
            let c = cands[i];
            let ghost stale_old = stale@;
            proof {
                assert(self.table.refcount(c@) == old(self).table.refcount(c@) && self.table.resident(c@) == old(
                    self,
                ).resident(c@)) by {
                    if exists|j: int| 0 <= j < i && (#[trigger] cands@[j])@ == c@ {
                        let j = choose|j: int| 0 <= j < i && (#[trigger] cands@[j])@ == c@;
                        assert(cands@[j]@ != cands@[i as int]@);
                    }
                }
                old(self).table.lemma_refcount_invariant(c@);
                self.table.lemma_refcount_invariant(c@);
            }
            let ghost pre = *self;
            let outcome = self.table.decr(c);
            if outcome == DecOutcome::Stale {
                proof {
                    assert forall|j: int| 0 <= j < stale_old.len() implies (
                    #[trigger] stale_old[j])@ != c@ by {
                        if stale_old[j]@ == c@ {
                            assert(has_coord(stale@, c@));
                            let jj = choose|jj: int|
                                0 <= jj < i && (#[trigger] cands@[jj])@ == c@;
                            assert(cands@[jj]@ == cands@[i as int]@);
                        }
                    }
                }
                stale.push(c);
            }
            proof {
                assert forall|k: (int, int, int)| #[trigger] has_coord(stale@, k) implies (
                exists|j: int| 0 <= j < i + 1 && (#[trigger] cands@[j])@ == k) && !old(
                    self,
                ).resident(k) by {
                    let j = choose|j: int| 0 <= j < stale@.len() && (#[trigger] stale@[j])@ == k;
                    if j < stale_old.len() {
                        assert(has_coord(stale_old, k));
                    } else {
                        assert(stale@[j]@ == c@);
                        assert(cands@[i as int]@ == k);
                    }
                }
                assert forall|k: (int, int, int)|
                    (exists|j: int| 0 <= j < i + 1 && (#[trigger] cands@[j])@ == k) && !old(
                        self,
                    ).resident(k) implies #[trigger] has_coord(stale@, k) by {
                    let j = choose|j: int| 0 <= j < i + 1 && (#[trigger] cands@[j])@ == k;
                    if j < i {
                        assert(has_coord(stale_old, k));
                        let jj = choose|jj: int|
                            0 <= jj < stale_old.len() && (#[trigger] stale_old[jj])@ == k;
                        assert(stale@[jj]@ == k);
                    } else {
                        assert(stale@[stale@.len() - 1]@ == k);
                    }
                }
                assert forall|k: (int, int, int)|
                    self.table.refcount(k) == (if (exists|j: int|
                        0 <= j < i + 1 && (#[trigger] cands@[j])@ == k) && old(self).table.refcount(k)
                        > 0 {
                        old(self).table.refcount(k) - 1
                    } else {
                        old(self).table.refcount(k)
                    }) by {
                    assert(self.table.resident(k) || !self.table.resident(k));
                    assert(pre.table.resident(k) || !pre.table.resident(k));
                    if k != c@ {
                        assert(self.table.refcount(k) == pre.table.refcount(k));
                    }
                    if exists|j: int| 0 <= j < i + 1 && (#[trigger] cands@[j])@ == k {
                        let j = choose|j: int| 0 <= j < i + 1 && (#[trigger] cands@[j])@ == k;
                        if j < i {
                            assert(cands@[j]@ != cands@[i as int]@);
                            assert(k != c@);
                            assert(exists|jj: int| 0 <= jj < i && (#[trigger] cands@[jj])@ == k);
                        } else {
                            assert(k == c@);
                            assert(!(exists|jj: int|
                                0 <= jj < i && (#[trigger] cands@[jj])@ == k)) by {
                                if exists|jj: int| 0 <= jj < i && (#[trigger] cands@[jj])@ == k {
                                    let jj = choose|jj: int|
                                        0 <= jj < i && (#[trigger] cands@[jj])@ == k;
                                    assert(cands@[jj]@ != cands@[i as int]@);
                                }
                            }
                        }
                    } else {
                        assert(k != c@) by {
                            if k == c@ {
                                assert(cands@[i as int]@ == k);
                            }
                        }
                        assert(!(exists|jj: int| 0 <= jj < i && (#[trigger] cands@[jj])@ == k));
                    }
                }
                assert forall|k: (int, int, int)|
                    self.table.resident(k) == (old(self).table.resident(k) && !((exists|j: int|
                        0 <= j < i + 1 && (#[trigger] cands@[j])@ == k) && old(self).table.refcount(k)
                        == 1)) by {
                    if exists|j: int| 0 <= j < i + 1 && (#[trigger] cands@[j])@ == k {
                        let j = choose|j: int| 0 <= j < i + 1 && (#[trigger] cands@[j])@ == k;
                        if j < i {
                            assert(cands@[j]@ != cands@[i as int]@);
                            assert(k != c@);
                            assert(exists|jj: int| 0 <= jj < i && (#[trigger] cands@[jj])@ == k);
                        } else {
                            assert(k == c@);
                            assert(!(exists|jj: int|
                                0 <= jj < i && (#[trigger] cands@[jj])@ == k)) by {
                                if exists|jj: int| 0 <= jj < i && (#[trigger] cands@[jj])@ == k {
                                    let jj = choose|jj: int|
                                        0 <= jj < i && (#[trigger] cands@[jj])@ == k;
                                    assert(cands@[jj]@ != cands@[i as int]@);
                                }
                            }
                        }
                    } else {
                        assert(k != c@) by {
                            if k == c@ {
                                assert(cands@[i as int]@ == k);
                            }
                        }
                        assert(!(exists|jj: int| 0 <= jj < i && (#[trigger] cands@[jj])@ == k));
                    }
                }
            }
        }
        proof {
            assert forall|k: (int, int, int)|
                #![trigger self.refcount(k)]
                #![trigger self.resident(k)]
                #![trigger self.grid(k)]
                #![trigger old(self).refcount(k)]
                #![trigger old(self).resident(k)]
                #![trigger old(self).grid(k)]
                self.refcount(k) == self.table.refcount(k) && old(self).refcount(k) == old(
                    self,
                ).table.refcount(k) && self.resident(k) == self.table.resident(k) && old(
                    self,
                ).resident(k) == old(self).table.resident(k) && self.grid(k) == self.table.grid(k)
                && old(self).grid(k) == old(self).table.grid(k) by {}
        }
        stale
    }

    /// A row really is where the player index points.
    proof fn lemma_player_idx(&self, i: int)
        requires
            self.wf(),
            0 <= i < self.players@.len(),
        ensures
            self.has_player(self.players@[i].id as int),
            self.player_pos(self.players@[i].id as int) == self.players@[i].pos@,
    {
        let id = self.players@[i].id as int;
        assert(self.has_player(id));
        let j = choose|j: int|
            0 <= j < self.players@.len() && (#[trigger] self.players@[j]).id == id;
        if i != j {
            assert(self.players@[i].id != self.players@[j].id);
        }
    }

    /// Whether a chunk coordinate is resident (for callers and tests).
    pub fn is_resident(&self, k: ChunkPos) -> (r: bool)
        requires
            self.wf(),
        ensures
            r == self.resident(k@),
    {
        self.table.contains(k)
    }

    /// The reference count of a chunk coordinate; zero when not resident.
    pub fn refcount_of(&self, k: ChunkPos) -> (r: u64)
        requires
            self.wf(),
        ensures
            r as int == self.refcount(k@),
    {
        self.table.refcount_of(k)
    }

    /// The canonical chunk at a coordinate, if resident.
    pub fn get_chunk(&self, k: ChunkPos) -> (r: Option<&Chunk>)
        requires
            self.wf(),
        ensures
            match r {
                Some(c) => self.resident(k@) && c@ == self.grid(k@),
                None => !self.resident(k@),
            },
    {
        self.table.get(k)
    }

    /// The row of a connected viewpoint, if any.
    fn find_player(&self, id: u64) -> (r: Option<usize>)
        requires
            self.wf(),
        ensures
            match r {
                Some(i) => self.has_player(id as int) && i < self.players@.len()
                    && self.players@[i as int].id == id && self.player_pos(id as int)
                    == self.players@[i as int].pos@,
                None => !self.has_player(id as int),
            },
    {
        let n = self.players.len();
        for i in 0..n
            invariant
                self.wf(),
                n == self.players@.len(),
                forall|j: int| 0 <= j < i ==> (#[trigger] self.players@[j]).id != id,
        {
            if self.players[i].id == id {
                proof {
                    self.lemma_player_idx(i as int);
                }
                return Some(i);
            }
        }
        None
    }

    /// Connect a viewpoint. Its whole visibility ball is partitioned into
    /// already-resident chunks — delivered at once, each reference count
    /// raised by one — and chunks to fetch, recorded as a pending order for
    /// this viewpoint (none when nothing needs fetching). An identity
    /// already connected is rejected and nothing changes.
    pub fn join(&mut self, id: u64, pos: WorldPos) -> (r: Option<JoinResult>)
        requires
            old(self).wf(),
            pos_valid(pos@, old(self).spec_draw_chunks()),
        ensures
            final(self).wf(),
            final(self).spec_draw_chunks() == old(self).spec_draw_chunks(),
            match r {
                None => old(self).has_player(id as int) && *final(self) == *old(self),
                Some(jr) => {
                    let center = world_to_chunk_spec(pos@);
                    let rad = old(self).spec_draw_chunks();
                    &&& !old(self).has_player(id as int)
                    &&& final(self).has_player(id as int)
                    &&& final(self).player_pos(id as int) == pos@
                    &&& final(self).player_count() == old(self).player_count() + 1
                    &&& forall|id2: int|
                        id2 != id ==> final(self).has_player(id2) == old(self).has_player(id2)
                            && (old(self).has_player(id2) ==> final(self).player_pos(id2) == old(
                            self,
                        ).player_pos(id2))
                    &&& forall|k: (int, int, int)|
                        final(self).refcount(k) == (if in_ball(center, rad, k) && old(
                            self,
                        ).resident(k) {
                            bump(old(self).refcount(k), 1)
                        } else {
                            old(self).refcount(k)
                        })
                    &&& forall|k: (int, int, int)|
                        final(self).resident(k) == old(self).resident(k)
                    &&& forall|k: (int, int, int)|
                        old(self).resident(k) ==> final(self).grid(k) == old(self).grid(k)
                    &&& coords_distinct(jr.to_fetch@)
                    &&& forall|k: (int, int, int)|
                        has_coord(jr.to_fetch@, k) <==> in_ball(center, rad, k) && !old(
                            self,
                        ).resident(k)
                    &&& forall|j: int|
                        0 <= j < jr.deliver@.len() ==> old(self).resident(
                            (#[trigger] jr.deliver@[j]).0@,
                        ) && in_ball(center, rad, jr.deliver@[j].0@) && jr.deliver@[j].1@ == old(
                            self,
                        ).grid(jr.deliver@[j].0@)
                    &&& forall|k: (int, int, int)|
                        in_ball(center, rad, k) && old(self).resident(k) ==> exists|j: int|
                            0 <= j < jr.deliver@.len() && (#[trigger] jr.deliver@[j]).0@ == k
                    &&& final(self).spec_orders() == (if jr.to_fetch@.len() > 0 {
                        old(self).spec_orders().push(
                            (jr.to_fetch@.map_values(|c: ChunkPos| c@), id as int),
                        )
                    } else {
                        old(self).spec_orders()
                    })
                },
            },
    {
        if self.find_player(id).is_some() {
            return None;
        }
        let center = world_to_chunk(pos);
        let around = chunks_around(center, self.draw_chunks);
        let ghost rad = self.draw_chunks as int;
        proof {
            assert forall|k: (int, int, int)|
                #![trigger in_ball(center@, rad, k)]
                #![trigger has_coord(around@, k)]
                has_coord(around@, k) == in_ball(center@, rad, k) by {
                if has_coord(around@, k) {
                    let j = choose|j: int| 0 <= j < around@.len() && (#[trigger] around@[j])@ == k;
                    assert(in_ball(center@, rad, around@[j]@));
                }
            }
        }
        let (to_fetch, deliver) = self.acquire(&around);
        if to_fetch.len() > 0 {
            let coords = copy_coords(&to_fetch);
            let ghost orders_old = self.orders@;
            self.orders.push(Order { coords, player: id });
            proof {
                assert(self.spec_orders() =~= orders_old.map_values(
                    |o: Order| (o.coords@.map_values(|c: ChunkPos| c@), o.player as int),
                ).push((to_fetch@.map_values(|c: ChunkPos| c@), id as int)));
            }
        }
        let ghost players_old = self.players@;
        self.players.push(Player { id, pos });
        proof {
            assert forall|i: int, j: int|
                0 <= i < j < self.players@.len() implies (#[trigger] self.players@[i]).id != (
            #[trigger] self.players@[j]).id by {
                if j == players_old.len() as int {
                    assert(self.players@[i] == players_old[i]);
                    assert(!old(self).has_player(id as int));
                }
            }
            assert(self.wf());
            self.lemma_player_idx(players_old.len() as int);
            assert forall|id2: int| id2 != id implies self.has_player(id2) == old(self).has_player(
                id2,
            ) && (old(self).has_player(id2) ==> self.player_pos(id2) == old(self).player_pos(
                id2,
            )) by {
                if old(self).has_player(id2) {
                    let j = choose|j: int|
                        0 <= j < players_old.len() && (#[trigger] players_old[j]).id == id2;
                    assert(self.players@[j].id == id2);
                    old(self).lemma_player_idx(j);
                    self.lemma_player_idx(j);
                } else {
                    if self.has_player(id2) {
                        let j = choose|j: int|
                            0 <= j < self.players@.len() && (#[trigger] self.players@[j]).id
                                == id2;
                        assert(j == players_old.len());
                    }
                }
            }
        }
        proof {
            let cen = world_to_chunk_spec(pos@);
            let radd = old(self).spec_draw_chunks();
            assert(rad == radd);
            assert(center@ == cen);
            assert(self.wf());
            assert(!old(self).has_player(id as int));
            assert(self.has_player(id as int));
            assert(self.player_pos(id as int) == pos@);
            assert(self.player_count() == old(self).player_count() + 1);
            assert(forall|id2: int|
                id2 != id ==> self.has_player(id2) == old(self).has_player(id2) && (old(
                    self,
                ).has_player(id2) ==> self.player_pos(id2) == old(self).player_pos(id2)));
            assert(forall|k: (int, int, int)|
                self.refcount(k) == (if in_ball(cen, radd, k) && old(self).resident(k) {
                    bump(old(self).refcount(k), 1)
                } else {
                    old(self).refcount(k)
                }));
            assert(forall|k: (int, int, int)| self.resident(k) == old(self).resident(k));
            assert(forall|k: (int, int, int)|
                old(self).resident(k) ==> self.grid(k) == old(self).grid(k));
            assert(coords_distinct(to_fetch@));
            assert(forall|k: (int, int, int)|
                has_coord(to_fetch@, k) <==> in_ball(cen, radd, k) && !old(self).resident(k));
            assert(forall|j: int|
                0 <= j < deliver@.len() ==> old(self).resident((#[trigger] deliver@[j]).0@)
                    && in_ball(cen, radd, deliver@[j].0@) && deliver@[j].1@ == old(self).grid(
                    deliver@[j].0@,
                ));
            assert(forall|k: (int, int, int)|
                in_ball(cen, radd, k) && old(self).resident(k) ==> exists|j: int|
                    0 <= j < deliver@.len() && (#[trigger] deliver@[j]).0@ == k);
            assert(self.spec_orders() == (if to_fetch@.len() > 0 {
                old(self).spec_orders().push((to_fetch@.map_values(|c: ChunkPos| c@), id as int))
            } else {
                old(self).spec_orders()
            }));
        }
        let result = JoinResult { to_fetch, deliver };
        proof {
            let cen = world_to_chunk_spec(pos@);
            assert(center@ == cen);
            assert forall|j: int| 0 <= j < result.deliver@.len() implies old(self).resident(
                (#[trigger] result.deliver@[j]).0@,
            ) && in_ball(cen, rad, result.deliver@[j].0@) && result.deliver@[j].1@ == old(
                self,
            ).grid(result.deliver@[j].0@) by {
                assert(old(self).resident(result.deliver@[j].0@) && has_coord(
                    around@,
                    result.deliver@[j].0@,
                ) && result.deliver@[j].1@ == old(self).grid(result.deliver@[j].0@));
            }
            assert forall|k: (int, int, int)|
                in_ball(cen, rad, k) && old(self).resident(k) implies exists|j: int|
                    0 <= j < result.deliver@.len() && (#[trigger] result.deliver@[j]).0@
                        == k by {
                assert(has_coord(around@, k));
                let jw = choose|j: int|
                    0 <= j < result.deliver@.len() && (#[trigger] result.deliver@[j]).0@ == k;
                assert(0 <= jw < result.deliver@.len() && result.deliver@[jw].0@ == k);
            }
        }
        Some(result)
    }

    /// Track a viewpoint's movement. While the viewpoint stays in its chunk
    /// only its position is updated (the cheap path). On a chunk-boundary
    /// crossing, chunks visible only from the old chunk are released
    /// (reference count lowered; evicted at zero; stale decrements reported,
    /// never fatal) and chunks visible only from the new chunk are acquired:
    /// resident ones are delivered at once, the rest becomes a pending
    /// order. An unknown identity is rejected and nothing changes.
    pub fn move_player(&mut self, id: u64, new_pos: WorldPos) -> (r: Option<MoveResult>)
        requires
            old(self).wf(),
            pos_valid(new_pos@, old(self).spec_draw_chunks()),
        ensures
            final(self).wf(),
            final(self).spec_draw_chunks() == old(self).spec_draw_chunks(),
            match r {
                None => !old(self).has_player(id as int) && *final(self) == *old(self),
                Some(mr) => {
                    let oc = world_to_chunk_spec(old(self).player_pos(id as int));
                    let nc = world_to_chunk_spec(new_pos@);
                    let rad = old(self).spec_draw_chunks();
                    &&& old(self).has_player(id as int)
                    &&& final(self).has_player(id as int)
                    &&& final(self).player_pos(id as int) == new_pos@
                    &&& final(self).player_count() == old(self).player_count()
                    &&& forall|id2: int|
                        id2 != id ==> final(self).has_player(id2) == old(self).has_player(id2)
                            && (old(self).has_player(id2) ==> final(self).player_pos(id2) == old(
                            self,
                        ).player_pos(id2))
                    &&& (oc == nc ==> {
                        &&& forall|k: (int, int, int)|
                            final(self).refcount(k) == old(self).refcount(k)
                        &&& forall|k: (int, int, int)|
                            final(self).resident(k) == old(self).resident(k)
                        &&& forall|k: (int, int, int)|
                            old(self).resident(k) ==> final(self).grid(k) == old(self).grid(k)
                        &&& mr.to_fetch@.len() == 0
                        &&& mr.deliver@.len() == 0
                        &&& mr.stale@.len() == 0
                        &&& final(self).spec_orders() == old(self).spec_orders()
                    })
                    &&& (oc != nc ==> {
                        &&& forall|k: (int, int, int)|
                            final(self).refcount(k) == (if in_ball(oc, rad, k) && !in_ball(
                                nc,
                                rad,
                                k,
                            ) && old(self).refcount(k) > 0 {
                                old(self).refcount(k) - 1
                            } else if in_ball(nc, rad, k) && !in_ball(oc, rad, k) && old(
                                self,
                            ).resident(k) {
                                bump(old(self).refcount(k), 1)
                            } else {
                                old(self).refcount(k)
                            })
                        &&& forall|k: (int, int, int)|
                            final(self).resident(k) == (old(self).resident(k) && !(in_ball(
                                oc,
                                rad,
                                k,
                            ) && !in_ball(nc, rad, k) && old(self).refcount(k) == 1))
                        &&& forall|k: (int, int, int)|
                            final(self).resident(k) ==> final(self).grid(k) == old(self).grid(k)
                        &&& coords_distinct(mr.to_fetch@)
                        &&& forall|k: (int, int, int)|
                            has_coord(mr.to_fetch@, k) <==> in_ball(nc, rad, k) && !in_ball(
                                oc,
                                rad,
                                k,
                            ) && !old(self).resident(k)
                        &&& forall|j: int|
                            0 <= j < mr.deliver@.len() ==> old(self).resident(
                                (#[trigger] mr.deliver@[j]).0@,
                            ) && in_ball(nc, rad, mr.deliver@[j].0@) && !in_ball(
                                oc,
                                rad,
                                mr.deliver@[j].0@,
                            ) && mr.deliver@[j].1@ == old(self).grid(mr.deliver@[j].0@)
                        &&& forall|k: (int, int, int)|
                            in_ball(nc, rad, k) && !in_ball(oc, rad, k) && old(self).resident(k)
                                ==> exists|j: int|
                                0 <= j < mr.deliver@.len() && (#[trigger] mr.deliver@[j]).0@ == k
                        &&& coords_distinct(mr.stale@)
                        &&& forall|k: (int, int, int)|
                            has_coord(mr.stale@, k) <==> in_ball(oc, rad, k) && !in_ball(
                                nc,
                                rad,
                                k,
                            ) && !old(self).resident(k)
                        &&& final(self).spec_orders() == (if mr.to_fetch@.len() > 0 {
                            old(self).spec_orders().push(
                                (mr.to_fetch@.map_values(|c: ChunkPos| c@), id as int),
                            )
                        } else {
                            old(self).spec_orders()
                        })
                    })
                },
            },
    {
        let pi = match self.find_player(id) {
            Some(pi) => pi,
            None => {
                return None;
            },
        };
        let old_pos = self.players[pi].pos;
        let ghost players_before = self.players@;
        let p: &mut Player = &mut self.players[pi];
        p.pos = new_pos;
        proof {
            assert(self.players@ == players_before.update(
                pi as int,
                Player { id: players_before[pi as int].id, pos: new_pos },
            ));
            assert forall|i: int, j: int|
                0 <= i < j < self.players@.len() implies (#[trigger] self.players@[i]).id != (
            #[trigger] self.players@[j]).id by {
                assert(self.players@[i].id == players_before[i].id);
                assert(self.players@[j].id == players_before[j].id);
            }
            assert(self.wf());
            self.lemma_player_idx(pi as int);
            old(self).lemma_player_idx(pi as int);
            assert(old(self).player_pos(id as int) == old_pos@);
            assert forall|id2: int| id2 != id implies self.has_player(id2) == old(self).has_player(
                id2,
            ) && (old(self).has_player(id2) ==> self.player_pos(id2) == old(self).player_pos(
                id2,
            )) by {
                if old(self).has_player(id2) {
                    let j = choose|j: int|
                        0 <= j < players_before.len() && (#[trigger] players_before[j]).id == id2;
                    assert(self.players@[j].id == id2);
                    old(self).lemma_player_idx(j);
                    self.lemma_player_idx(j);
                } else {
                    if self.has_player(id2) {
                        let j = choose|j: int|
                            0 <= j < self.players@.len() && (#[trigger] self.players@[j]).id
                                == id2;
                        assert(players_before[j].id == id2);
                    }
                }
            }
        }
        let oc = world_to_chunk(old_pos);
        let ncp = world_to_chunk(new_pos);
        if oc.x == ncp.x && oc.y == ncp.y && oc.z == ncp.z {
            return Some(
                MoveResult { to_fetch: Vec::new(), deliver: Vec::new(), stale: Vec::new() },
            );
        }
        let ghost rad = self.draw_chunks as int;
        let ball_old = chunks_around(oc, self.draw_chunks);
        let ball_new = chunks_around(ncp, self.draw_chunks);
        proof {
            assert forall|k: (int, int, int)|
                #![trigger in_ball(oc@, rad, k)]
                #![trigger has_coord(ball_old@, k)]
                has_coord(ball_old@, k) == in_ball(oc@, rad, k) by {
                if has_coord(ball_old@, k) {
                    let j = choose|j: int|
                        0 <= j < ball_old@.len() && (#[trigger] ball_old@[j])@ == k;
                    assert(in_ball(oc@, rad, ball_old@[j]@));
                }
            }
            assert forall|k: (int, int, int)|
                #![trigger in_ball(ncp@, rad, k)]
                #![trigger has_coord(ball_new@, k)]
                has_coord(ball_new@, k) == in_ball(ncp@, rad, k) by {
                if has_coord(ball_new@, k) {
                    let j = choose|j: int|
                        0 <= j < ball_new@.len() && (#[trigger] ball_new@[j])@ == k;
                    assert(in_ball(ncp@, rad, ball_new@[j]@));
                }
            }
        }
        let to_unload = coords_diff(&ball_old, &ball_new);
        let to_load = coords_diff(&ball_new, &ball_old);
        let ghost mid0 = *self;
        let stale = self.release(&to_unload);
        let ghost mid = *self;
        let (to_fetch, deliver) = self.acquire(&to_load);
        proof {
            assert forall|k: (int, int, int)|
                #![trigger self.refcount(k)]
                #![trigger self.resident(k)]
                self.refcount(k) == (if in_ball(oc@, rad, k) && !in_ball(ncp@, rad, k) && mid0.refcount(k) > 0 {
                    mid0.refcount(k) - 1
                } else if in_ball(ncp@, rad, k) && !in_ball(oc@, rad, k) && mid0.resident(k) {
                    bump(mid0.refcount(k), 1)
                } else {
                    mid0.refcount(k)
                }) && self.resident(k) == (mid0.resident(k) && !(in_ball(oc@, rad, k) && !in_ball(
                ncp@,
                rad,
                k,
            ) && mid0.refcount(k) == 1)) && (self.resident(k) ==> self.grid(k) == mid0.grid(
                k,
            )) by {
                assert(has_coord(to_unload@, k) == (in_ball(oc@, rad, k) && !in_ball(
                    ncp@,
                    rad,
                    k,
                )));
                assert(has_coord(to_load@, k) == (in_ball(ncp@, rad, k) && !in_ball(
                    oc@,
                    rad,
                    k,
                )));
                mid0.table.lemma_refcount_invariant(k);
                mid.table.lemma_refcount_invariant(k);
                self.table.lemma_refcount_invariant(k);
            }
        }
        if to_fetch.len() > 0 {
            let coords = copy_coords(&to_fetch);
            let ghost orders_old = self.orders@;
            self.orders.push(Order { coords, player: id });
            proof {
                assert(self.spec_orders() =~= orders_old.map_values(
                    |o: Order| (o.coords@.map_values(|c: ChunkPos| c@), o.player as int),
                ).push((to_fetch@.map_values(|c: ChunkPos| c@), id as int)));
            }
        }
        let result = MoveResult { to_fetch, deliver, stale };
        proof {
            assert forall|j: int| 0 <= j < result.deliver@.len() implies mid0.resident(
                (#[trigger] result.deliver@[j]).0@,
            ) && in_ball(ncp@, rad, result.deliver@[j].0@) && !in_ball(
                oc@,
                rad,
                result.deliver@[j].0@,
            ) && result.deliver@[j].1@ == mid0.grid(result.deliver@[j].0@) by {
                assert(mid.resident(result.deliver@[j].0@) && has_coord(
                    to_load@,
                    result.deliver@[j].0@,
                ) && result.deliver@[j].1@ == mid.grid(result.deliver@[j].0@));
                assert(has_coord(to_unload@, result.deliver@[j].0@) == false);
            }
            assert forall|k: (int, int, int)|
                in_ball(ncp@, rad, k) && !in_ball(oc@, rad, k) && mid0.resident(k) implies exists|j: int|
                    0 <= j < result.deliver@.len() && (#[trigger] result.deliver@[j]).0@
                        == k by {
                assert(has_coord(to_load@, k));
                assert(!has_coord(to_unload@, k));
                assert(mid.resident(k));
                let jw = choose|j: int|
                    0 <= j < result.deliver@.len() && (#[trigger] result.deliver@[j]).0@ == k;
                assert(0 <= jw < result.deliver@.len() && result.deliver@[jw].0@ == k);
            }
            assert forall|k: (int, int, int)| #[trigger] has_coord(result.to_fetch@, k) implies
                in_ball(ncp@, rad, k) && !in_ball(oc@, rad, k) && !mid0.resident(k) by {
                assert(has_coord(to_load@, k) && !mid.resident(k));
                assert(!has_coord(to_unload@, k));
            }
            assert forall|k: (int, int, int)|
                in_ball(ncp@, rad, k) && !in_ball(oc@, rad, k) && !mid0.resident(k) implies
                #[trigger] has_coord(result.to_fetch@, k) by {
                assert(has_coord(to_load@, k));
                assert(!has_coord(to_unload@, k));
                assert(!mid.resident(k));
            }
            assert forall|k: (int, int, int)| #[trigger] has_coord(result.stale@, k) implies
                in_ball(oc@, rad, k) && !in_ball(ncp@, rad, k) && !mid0.resident(k) by {
                assert(has_coord(to_unload@, k) && !mid0.resident(k));
            }
            assert forall|k: (int, int, int)|
                in_ball(oc@, rad, k) && !in_ball(ncp@, rad, k) && !mid0.resident(k) implies
                #[trigger] has_coord(result.stale@, k) by {
                assert(has_coord(to_unload@, k));
            }
        }
        proof {
            let ocs = world_to_chunk_spec(old(self).player_pos(id as int));
            let ncs = world_to_chunk_spec(new_pos@);
            assert(oc@ == ocs && ncp@ == ncs);
            assert(ocs != ncs);
            assert(forall|k: (int, int, int)|
                mid0.refcount(k) == old(self).refcount(k) && mid0.resident(k) == old(
                    self,
                ).resident(k));
            assert(forall|k: (int, int, int)|
                old(self).resident(k) ==> mid0.grid(k) == old(self).grid(k));
            assert(self.has_player(id as int));
            assert(self.player_pos(id as int) == new_pos@);
            assert(self.player_count() == old(self).player_count());
            assert(forall|k: (int, int, int)|
                self.refcount(k) == (if in_ball(ocs, rad, k) && !in_ball(ncs, rad, k) && old(
                    self,
                ).refcount(k) > 0 {
                    old(self).refcount(k) - 1
                } else if in_ball(ncs, rad, k) && !in_ball(ocs, rad, k) && old(self).resident(k) {
                    bump(old(self).refcount(k), 1)
                } else {
                    old(self).refcount(k)
                }));
            assert(forall|k: (int, int, int)|
                self.resident(k) == (old(self).resident(k) && !(in_ball(ocs, rad, k) && !in_ball(
                    ncs,
                    rad,
                    k,
                ) && old(self).refcount(k) == 1)));
            assert(forall|k: (int, int, int)|
                self.resident(k) ==> self.grid(k) == old(self).grid(k));
            assert(coords_distinct(result.to_fetch@));
            assert(coords_distinct(result.stale@));
            assert(self.spec_orders() == (if result.to_fetch@.len() > 0 {
                old(self).spec_orders().push(
                    (result.to_fetch@.map_values(|c: ChunkPos| c@), id as int),
                )
            } else {
                old(self).spec_orders()
            }));
        }
        Some(result)
    }

    /// Disconnect a viewpoint: every chunk of its visibility ball is
    /// released (reference count lowered, chunks at zero evicted, stale
    /// decrements reported) and the viewpoint is removed. The surrounding
    /// program acknowledges the departure once this returns. An unknown
    /// identity is rejected and nothing changes.
    pub fn leave(&mut self, id: u64) -> (r: Option<Vec<ChunkPos>>)
        requires
            old(self).wf(),
        ensures
            final(self).wf(),
            final(self).spec_draw_chunks() == old(self).spec_draw_chunks(),
            match r {
                None => !old(self).has_player(id as int) && *final(self) == *old(self),
                Some(stale) => {
                    let c = world_to_chunk_spec(old(self).player_pos(id as int));
                    let rad = old(self).spec_draw_chunks();
                    &&& old(self).has_player(id as int)
                    &&& !final(self).has_player(id as int)
                    &&& final(self).player_count() == old(self).player_count() - 1
                    &&& forall|id2: int|
                        id2 != id ==> final(self).has_player(id2) == old(self).has_player(id2)
                            && (old(self).has_player(id2) ==> final(self).player_pos(id2) == old(
                            self,
                        ).player_pos(id2))
                    &&& forall|k: (int, int, int)|
                        final(self).refcount(k) == (if in_ball(c, rad, k) && old(self).refcount(k)
                            > 0 {
                            old(self).refcount(k) - 1
                        } else {
                            old(self).refcount(k)
                        })
                    &&& forall|k: (int, int, int)|
                        final(self).resident(k) == (old(self).resident(k) && !(in_ball(c, rad, k)
                            && old(self).refcount(k) == 1))
                    &&& forall|k: (int, int, int)|
                        final(self).resident(k) ==> final(self).grid(k) == old(self).grid(k)
                    &&& coords_distinct(stale@)
                    &&& forall|k: (int, int, int)|
                        has_coord(stale@, k) <==> in_ball(c, rad, k) && !old(self).resident(k)
                    &&& final(self).spec_orders() == old(self).spec_orders()
                },
            },
    {
        let pi = match self.find_player(id) {
            Some(pi) => pi,
            None => {
                return None;
            },
        };
        let pos = self.players[pi].pos;
        proof {
            self.lemma_player_idx(pi as int);
            assert(old(self).player_pos(id as int) == pos@);
        }
        let ghost rad = self.draw_chunks as int;
        let center = world_to_chunk(pos);
        let ball = chunks_around(center, self.draw_chunks);
        proof {
            assert forall|k: (int, int, int)|
                #![trigger in_ball(center@, rad, k)]
                #![trigger has_coord(ball@, k)]
                has_coord(ball@, k) == in_ball(center@, rad, k) by {
                if has_coord(ball@, k) {
                    let j = choose|j: int| 0 <= j < ball@.len() && (#[trigger] ball@[j])@ == k;
                    assert(in_ball(center@, rad, ball@[j]@));
                }
            }
        }
        let stale = self.release(&ball);
        let ghost players_before = self.players@;
        let ghost n = self.players@.len() as int;
        self.players.swap_remove(pi);
        proof {
            assert forall|i: int, j: int|
                0 <= i < j < self.players@.len() implies (#[trigger] self.players@[i]).id != (
            #[trigger] self.players@[j]).id by {
                let oi: int = if i == pi {
                    n - 1
                } else {
                    i
                };
                let oj: int = if j == pi {
                    n - 1
                } else {
                    j
                };
                assert(self.players@[i] == players_before[oi]);
                assert(self.players@[j] == players_before[oj]);
            }
            assert forall|i: int| 0 <= i < self.players@.len() implies pos_valid(
                (#[trigger] self.players@[i]).pos@,
                self.draw_chunks as int,
            ) by {
                let oi: int = if i == pi {
                    n - 1
                } else {
                    i
                };
                assert(self.players@[i] == players_before[oi]);
            }
            assert(self.wf());
            assert(!self.has_player(id as int)) by {
                if self.has_player(id as int) {
                    let j = choose|j: int|
                        0 <= j < self.players@.len() && (#[trigger] self.players@[j]).id == id;
                    let oj: int = if j == pi {
                        n - 1
                    } else {
                        j
                    };
                    assert(self.players@[j] == players_before[oj]);
                    assert(oj != pi);
                    assert(players_before[oj].id != players_before[pi as int].id);
                }
            }
            assert forall|id2: int| id2 != id implies self.has_player(id2) == old(self).has_player(
                id2,
            ) && (old(self).has_player(id2) ==> self.player_pos(id2) == old(self).player_pos(
                id2,
            )) by {
                if old(self).has_player(id2) {
                    let j = choose|j: int|
                        0 <= j < players_before.len() && (#[trigger] players_before[j]).id == id2;
                    old(self).lemma_player_idx(j);
                    assert(j != pi);
                    let nj: int = if j == n - 1 {
                        pi as int
                    } else {
                        j
                    };
                    if j == n - 1 {
                        assert(pi < n - 1);
                    }
                    assert(self.players@[nj] == players_before[j]);
                    self.lemma_player_idx(nj);
                } else {
                    if self.has_player(id2) {
                        let j = choose|j: int|
                            0 <= j < self.players@.len() && (#[trigger] self.players@[j]).id
                                == id2;
                        let oj: int = if j == pi {
                            n - 1
                        } else {
                            j
                        };
                        assert(self.players@[j] == players_before[oj]);
                        assert(old(self).has_player(id2));
                    }
                }
            }
        }
        Some(stale)
    }

    /// Take in a batch from the chunk worker. Every pending order whose
    /// exact coordinate list equals the batch's is fulfilled: its requester
    /// is returned (oldest first) and the order removed. Each delivered
    /// coordinate's reference count grows by the number of fulfilled orders;
    /// a coordinate nobody ordered and nobody held is still merged into the
    /// canonical table, held once by the authority itself. Chunk data is
    /// merged last-entry-wins.
    pub fn deliver(&mut self, batch: &Vec<(ChunkPos, Chunk)>) -> (requesters: Vec<u64>)
        requires
            old(self).wf(),
        ensures
            final(self).wf(),
            final(self).spec_draw_chunks() == old(self).spec_draw_chunks(),
            final(self).player_count() == old(self).player_count(),
            forall|id2: int|
                final(self).has_player(id2) == old(self).has_player(id2) && (old(self).has_player(
                    id2,
                ) ==> final(self).player_pos(id2) == old(self).player_pos(id2)),
            ({
                let locs = batch_coords(batch@);
                let n = match_count(old(self).spec_orders(), locs);
                &&& final(self).spec_orders() == kept_orders(old(self).spec_orders(), locs)
                &&& requesters@.map_values(|x: u64| x as int) == matched_ids(
                    old(self).spec_orders(),
                    locs,
                )
                &&& forall|k: (int, int, int)|
                    final(self).resident(k) == (old(self).resident(k) || locs_has(locs, k))
                &&& forall|k: (int, int, int)|
                    final(self).refcount(k) == (if locs_has(locs, k) {
                        if old(self).refcount(k) + n == 0 {
                            1
                        } else {
                            bump(old(self).refcount(k), n)
                        }
                    } else {
                        old(self).refcount(k)
                    })
                &&& forall|k: (int, int, int)|
                    locs_has(locs, k) ==> final(self).grid(k) == batch_last_grid(batch@, k)
                &&& forall|k: (int, int, int)|
                    !locs_has(locs, k) && old(self).resident(k) ==> final(self).grid(k) == old(
                        self,
                    ).grid(k)
            }),
    {
        let ghost locs = batch_coords(batch@);
        let ghost orig = old(self).spec_orders();
        // Fulfil matching orders.
        let mut olds: Vec<Order> = Vec::new();
        core::mem::swap(&mut olds, &mut self.orders);
        let mut kept: Vec<Order> = Vec::new();
        let mut requesters: Vec<u64> = Vec::new();
        let ghost total = olds@.len() as int;
        proof {
            assert(olds@.map_values(
                |o: Order| (o.coords@.map_values(|c: ChunkPos| c@), o.player as int),
            ) == orig);
            assert(orig.take(0) =~= Seq::<OrderModel>::empty());
            assert(kept_orders(orig.take(0), locs) == Seq::<OrderModel>::empty());
            assert(matched_ids(orig.take(0), locs) == Seq::<int>::empty());
            assert(kept@.map_values(
                |o: Order| (o.coords@.map_values(|c: ChunkPos| c@), o.player as int),
            ) =~= kept_orders(orig.take(0), locs));
            assert(requesters@.map_values(|x: u64| x as int) =~= matched_ids(orig.take(0), locs));
        }
        while olds.len() > 0
            invariant
                total == orig.len(),
                olds@.len() <= total,
                olds@.map_values(
                    |o: Order| (o.coords@.map_values(|c: ChunkPos| c@), o.player as int),
                ) =~= orig.subrange(total - olds@.len(), total),
                kept@.map_values(
                    |o: Order| (o.coords@.map_values(|c: ChunkPos| c@), o.player as int),
                ) == kept_orders(orig.take(total - olds@.len()), locs),
                requesters@.map_values(|x: u64| x as int) == matched_ids(
                    orig.take(total - olds@.len()),
                    locs,
                ),
                locs == batch_coords(batch@),
            decreases olds@.len(),
        {
            let ghost i = total - olds@.len();
            let ghost olds_pre = olds@;
            let o = olds.remove(0);
            proof {
                assert(olds_pre.map_values(
                    |oo: Order| (oo.coords@.map_values(|c: ChunkPos| c@), oo.player as int),
                )[0] == orig[i]);
                assert(olds@ =~= olds_pre.drop_first());
                assert(olds@.map_values(
                    |oo: Order| (oo.coords@.map_values(|c: ChunkPos| c@), oo.player as int),
                ) =~= olds_pre.map_values(
                    |oo: Order| (oo.coords@.map_values(|c: ChunkPos| c@), oo.player as int),
                ).drop_first());
                assert(olds_pre.map_values(
                    |oo: Order| (oo.coords@.map_values(|c: ChunkPos| c@), oo.player as int),
                ).drop_first() =~= orig.subrange(i + 1, total));
                assert(olds@.map_values(
                    |oo: Order| (oo.coords@.map_values(|c: ChunkPos| c@), oo.player as int),
                ) =~= orig.subrange(i + 1, total));
                assert(orig.take(i + 1) =~= orig.take(i).push(orig[i]));
                lemma_orders_push(orig.take(i), orig[i], locs);
            }
            let matched = order_matches(&o.coords, batch);
            proof {
                assert((o.coords@.map_values(|c: ChunkPos| c@), o.player as int) == orig[i]);
            }
            if matched {
                let ghost reqs_pre = requesters@;
                requesters.push(o.player);
                proof {
                    assert(orig[i].0 == locs);
                    assert(requesters@.map_values(|x: u64| x as int) =~= reqs_pre.map_values(
                        |x: u64| x as int,
                    ).push(o.player as int));
                    assert(matched_ids(orig.take(i), locs) + seq![orig[i].1]
                        =~= matched_ids(orig.take(i), locs).push(orig[i].1));
                    assert(kept_orders(orig.take(i), locs) + Seq::<OrderModel>::empty()
                        =~= kept_orders(orig.take(i), locs));
                }
            } else {
                let ghost kept_pre = kept@;
                kept.push(o);
                proof {
                    assert(orig[i].0 != locs);
                    assert(kept@.map_values(
                        |oo: Order| (oo.coords@.map_values(|c: ChunkPos| c@), oo.player as int),
                    ) =~= kept_pre.map_values(
                        |oo: Order| (oo.coords@.map_values(|c: ChunkPos| c@), oo.player as int),
                    ).push(orig[i]));
                    assert(kept_orders(orig.take(i), locs) + seq![orig[i]] =~= kept_orders(
                        orig.take(i),
                        locs,
                    ).push(orig[i]));
                    assert(matched_ids(orig.take(i), locs) + Seq::<int>::empty() =~= matched_ids(
                        orig.take(i),
                        locs,
                    ));
                }
            }
        }
        self.orders = kept;
        proof {
            assert(orig.take(total) =~= orig);
            assert(self.spec_orders() == kept_orders(orig, locs));
        }
        let matched_count: u64 = requesters.len() as u64;
        let ghost n = match_count(orig, locs);
        proof {
            assert(requesters@.map_values(|x: u64| x as int).len() == requesters@.len());
            assert(matched_count as int == n);
        }
        // Merge the chunk data and raise reference counts.
        let nb = batch.len();
        let ghost mid = *self;
        for idx in 0..nb
            invariant
                old(self).wf(),
                self.wf(),
                nb == batch@.len(),
                locs == batch_coords(batch@),
                n == match_count(orig, locs),
                matched_count as int == n,
                self.players == mid.players,
                self.orders == mid.orders,
                self.draw_chunks == mid.draw_chunks,
                mid.table == old(self).table,
                forall|k: (int, int, int)|
                    self.table.resident(k) == (old(self).table.resident(k) || locs_has(
                        batch_coords(batch@.take(idx as int)),
                        k,
                    )),
                forall|k: (int, int, int)|
                    self.table.refcount(k) == (if locs_has(batch_coords(batch@.take(idx as int)), k) {
                        if old(self).table.refcount(k) + n == 0 {
                            1
                        } else {
                            bump(old(self).table.refcount(k), n)
                        }
                    } else {
                        old(self).table.refcount(k)
                    }),
                forall|k: (int, int, int)|
                    locs_has(batch_coords(batch@.take(idx as int)), k) ==> self.table.grid(k)
                        == batch_last_grid(batch@.take(idx as int), k),
                forall|k: (int, int, int)|
                    !locs_has(batch_coords(batch@.take(idx as int)), k) && old(
                        self,
                    ).table.resident(k) ==> self.table.grid(k) == old(self).table.grid(k),
        {
            let entry = &batch[idx];
            let c = entry.0;
            let dup = entry.1.duplicate();
            let ghost pre = *self;
            let ghost prefix = batch_coords(batch@.take(idx as int));
            let ghost prefix1 = batch_coords(batch@.take(idx as int + 1));
            proof {
                old(self).table.lemma_refcount_invariant(c@);
                pre.table.lemma_refcount_invariant(c@);
                assert(batch@.take(idx as int + 1) =~= batch@.take(idx as int).push(
                    batch@[idx as int],
                ));
                assert(prefix1 =~= prefix.push(c@));
                assert forall|k: (int, int, int)| #[trigger] locs_has(prefix1, k) == (locs_has(
                    prefix,
                    k,
                ) || k == c@) by {
                    if locs_has(prefix1, k) {
                        let j = choose|j: int| 0 <= j < prefix1.len() && prefix1[j] == k;
                        if j < prefix.len() {
                            assert(prefix[j] == k);
                        }
                    }
                    if locs_has(prefix, k) {
                        let j = choose|j: int| 0 <= j < prefix.len() && prefix[j] == k;
                        assert(prefix1[j] == k);
                    }
                    if k == c@ {
                        assert(prefix1[prefix1.len() - 1] == k);
                    }
                }
                assert forall|k: (int, int, int)|
                    locs_has(prefix, k) implies #[trigger] batch_last_grid(
                    batch@.take(idx as int + 1),
                    k,
                ) == (if k == c@ {
                    batch@[idx as int].1@
                } else {
                    batch_last_grid(batch@.take(idx as int), k)
                }) by {
                    assert(batch@.take(idx as int + 1).drop_last() =~= batch@.take(idx as int));
                    assert(batch@.take(idx as int + 1).last() == batch@[idx as int]);
                }
                assert(batch_last_grid(batch@.take(idx as int + 1), c@) == batch@[idx as int].1@)
                    by {
                    assert(batch@.take(idx as int + 1).last() == batch@[idx as int]);
                }
            }
            let repeat = batch_prefix_has(batch, idx, c);
            let add: u64 = if repeat {
                0
            } else if matched_count > 0 {
                matched_count
            } else if self.table.contains(c) {
                0
            } else {
                1
            };
            self.table.insert_chunk(c, dup, add);
            proof {
                assert forall|k: (int, int, int)|
                    self.table.resident(k) == (old(self).table.resident(k) || locs_has(prefix1, k))
                        && self.table.refcount(k) == (if locs_has(prefix1, k) {
                        if old(self).table.refcount(k) + n == 0 {
                            1
                        } else {
                            bump(old(self).table.refcount(k), n)
                        }
                    } else {
                        old(self).table.refcount(k)
                    }) && (locs_has(prefix1, k) ==> self.table.grid(k) == batch_last_grid(
                        batch@.take(idx as int + 1),
                        k,
                    )) && (!locs_has(prefix1, k) && old(self).table.resident(k)
                        ==> self.table.grid(k) == old(self).table.grid(k)) by {
                    assert(locs_has(prefix1, k) == (locs_has(prefix, k) || k == c@));
                    if k == c@ {
                        assert(self.table.refcount(k) == bump(pre.table.refcount(k), add as int));
                    } else {
                        assert(self.table.resident(k) == pre.table.resident(k));
                        assert(self.table.refcount(k) == pre.table.refcount(k));
                        if pre.table.resident(k) {
                            assert(self.table.grid(k) == pre.table.grid(k));
                        }
                    }
                }
            }
        }
        proof {
            assert(batch@.take(nb as int) =~= batch@);
            assert forall|k: (int, int, int)|
                #![trigger self.refcount(k)]
                #![trigger self.resident(k)]
                #![trigger self.grid(k)]
                #![trigger old(self).refcount(k)]
                #![trigger old(self).resident(k)]
                #![trigger old(self).grid(k)]
                self.refcount(k) == self.table.refcount(k) && old(self).refcount(k) == old(
                    self,
                ).table.refcount(k) && self.resident(k) == self.table.resident(k) && old(
                    self,
                ).resident(k) == old(self).table.resident(k) && self.grid(k) == self.table.grid(k)
                && old(self).grid(k) == old(self).table.grid(k) by {}
        }
        requesters
    }

    /// Place a material at a world block position, applied immediately to
    /// canonical state: the voxel is replaced when its chunk is resident and
    /// the block index lies within the chunk's grid; otherwise nothing
    /// changes, and the result says which.
    pub fn set_block(&mut self, w: WorldPos, m: Material) -> (r: bool)
        requires
            old(self).wf(),
            world_in_chunk_range(w@),
        ensures
            final(self).wf(),
            final(self).spec_draw_chunks() == old(self).spec_draw_chunks(),
            final(self).spec_orders() == old(self).spec_orders(),
            final(self).player_count() == old(self).player_count(),
            forall|id2: int|
                final(self).has_player(id2) == old(self).has_player(id2) && (old(self).has_player(
                    id2,
                ) ==> final(self).player_pos(id2) == old(self).player_pos(id2)),
            ({
                let k = world_to_chunk_spec(w@);
                let b = in_chunk_spec(w@);
                &&& r == (old(self).resident(k) && Chunk::can_set(old(self).grid(k), b.0, b.1, b.2))
                &&& forall|k2: (int, int, int)|
                    final(self).resident(k2) == old(self).resident(k2) && final(self).refcount(k2)
                        == old(self).refcount(k2)
                &&& forall|k2: (int, int, int)|
                    k2 != k && old(self).resident(k2) ==> final(self).grid(k2) == old(self).grid(
                        k2,
                    )
                &&& r ==> final(self).grid(k) == old(self).grid(k).update(
                    b.0,
                    old(self).grid(k)[b.0].update(b.1, old(self).grid(k)[b.0][b.1].update(b.2, m)),
                )
                &&& !r && old(self).resident(k) ==> final(self).grid(k) == old(self).grid(k)
            }),
    {
        let k = world_to_chunk(w);
        let (x, y, z) = crate::coords::in_chunk(w);
        let r = self.table.set_voxel(k, x, y, z, m);
        proof {
            assert forall|k2: (int, int, int)|
                #![trigger self.resident(k2)]
                #![trigger self.refcount(k2)]
                #![trigger self.grid(k2)]
                self.resident(k2) == self.table.resident(k2) && old(self).resident(k2) == old(
                    self,
                ).table.resident(k2) && self.refcount(k2) == self.table.refcount(k2) && old(
                    self,
                ).refcount(k2) == old(self).table.refcount(k2) && self.grid(k2) == self.table.grid(
                    k2,
                ) && old(self).grid(k2) == old(self).table.grid(k2) by {}
        }
        r
    }
}

/// The coordinate list a batch of chunks delivers, in order.
pub open spec fn batch_coords(b: Seq<(ChunkPos, Chunk)>) -> Seq<(int, int, int)> {
    b.map_values(|p: (ChunkPos, Chunk)| p.0@)
}

/// Whether a coordinate occurs in a coordinate list.
pub open spec fn locs_has(locs: Seq<(int, int, int)>, k: (int, int, int)) -> bool {
    exists|j: int| 0 <= j < locs.len() && locs[j] == k
}

/// The orders that stay pending after a delivery with coordinate list
/// `locs`: those whose exact coordinate list differs.
pub open spec fn kept_orders(os: Seq<OrderModel>, locs: Seq<(int, int, int)>) -> Seq<OrderModel>
    decreases os.len(),
{
    if os.len() == 0 {
        Seq::empty()
    } else if os[0].0 == locs {
        kept_orders(os.drop_first(), locs)
    } else {
        seq![os[0]] + kept_orders(os.drop_first(), locs)
    }
}

/// The requesters of the orders a delivery with coordinate list `locs`
/// fulfils, oldest first.
pub open spec fn matched_ids(os: Seq<OrderModel>, locs: Seq<(int, int, int)>) -> Seq<int>
    decreases os.len(),
{
    if os.len() == 0 {
        Seq::empty()
    } else if os[0].0 == locs {
        seq![os[0].1] + matched_ids(os.drop_first(), locs)
    } else {
        matched_ids(os.drop_first(), locs)
    }
}

/// How many pending orders a delivery with coordinate list `locs` fulfils.
pub open spec fn match_count(os: Seq<OrderModel>, locs: Seq<(int, int, int)>) -> int {
    matched_ids(os, locs).len() as int
}

/// The grid of the last batch entry delivering coordinate `k`.
pub open spec fn batch_last_grid(b: Seq<(ChunkPos, Chunk)>, k: (int, int, int)) -> Seq<
    Seq<Seq<Material>>,
>
    decreases b.len(),
{
    if b.len() == 0 {
        Seq::empty()
    } else if b.last().0@ == k {
        b.last().1@
    } else {
        batch_last_grid(b.drop_last(), k)
    }
}

/// Splitting the last order off distributes over `kept_orders` and
/// `matched_ids`.
proof fn lemma_orders_push(os: Seq<OrderModel>, x: OrderModel, locs: Seq<(int, int, int)>)
    ensures
        kept_orders(os.push(x), locs) == kept_orders(os, locs) + (if x.0 == locs {
            Seq::<OrderModel>::empty()
        } else {
            seq![x]
        }),
        matched_ids(os.push(x), locs) == matched_ids(os, locs) + (if x.0 == locs {
            seq![x.1]
        } else {
            Seq::<int>::empty()
        }),
    decreases os.len(),
{
    if os.len() == 0 {
        assert(os.push(x)[0] == x);
        assert(os =~= Seq::<OrderModel>::empty());
        assert(kept_orders(Seq::<OrderModel>::empty(), locs) == Seq::<OrderModel>::empty());
        assert(matched_ids(Seq::<OrderModel>::empty(), locs) == Seq::<int>::empty());
        assert(os.push(x).drop_first() =~= Seq::<OrderModel>::empty());
        if x.0 == locs {
            assert(kept_orders(os.push(x), locs) =~= kept_orders(os, locs) + Seq::<
                OrderModel,
            >::empty());
            assert(matched_ids(os.push(x), locs) =~= matched_ids(os, locs) + seq![x.1]);
        } else {
            assert(kept_orders(os.push(x), locs) =~= kept_orders(os, locs) + seq![x]);
            assert(matched_ids(os.push(x), locs) =~= matched_ids(os, locs) + Seq::<int>::empty());
        }
    } else {
        let ka: Seq<OrderModel> = if x.0 == locs {
            Seq::empty()
        } else {
            seq![x]
        };
        let ma: Seq<int> = if x.0 == locs {
            seq![x.1]
        } else {
            Seq::empty()
        };
        assert(os.push(x).drop_first() =~= os.drop_first().push(x));
        assert(os.push(x)[0] == os[0]);
        lemma_orders_push(os.drop_first(), x, locs);
        assert(kept_orders(os.drop_first().push(x), locs) == kept_orders(os.drop_first(), locs)
            + ka);
        assert(matched_ids(os.drop_first().push(x), locs) == matched_ids(os.drop_first(), locs)
            + ma);
        if os[0].0 == locs {
            assert(kept_orders(os.push(x), locs) == kept_orders(os.drop_first().push(x), locs));
            assert(kept_orders(os, locs) == kept_orders(os.drop_first(), locs));
            assert(matched_ids(os.push(x), locs) == seq![os[0].1] + matched_ids(
                os.drop_first().push(x),
                locs,
            ));
            assert(matched_ids(os, locs) == seq![os[0].1] + matched_ids(os.drop_first(), locs));
            assert(seq![os[0].1] + (matched_ids(os.drop_first(), locs) + ma) =~= (seq![os[0].1]
                + matched_ids(os.drop_first(), locs)) + ma);
        } else {
            assert(kept_orders(os.push(x), locs) == seq![os[0]] + kept_orders(
                os.drop_first().push(x),
                locs,
            ));
            assert(kept_orders(os, locs) == seq![os[0]] + kept_orders(os.drop_first(), locs));
            assert(seq![os[0]] + (kept_orders(os.drop_first(), locs) + ka) =~= (seq![os[0]]
                + kept_orders(os.drop_first(), locs)) + ka);
            assert(matched_ids(os.push(x), locs) == matched_ids(os.drop_first().push(x), locs));
            assert(matched_ids(os, locs) == matched_ids(os.drop_first(), locs));
        }
    }
}

/// Whether an order's coordinate list equals a batch's coordinate list.
fn order_matches(coords: &Vec<ChunkPos>, batch: &Vec<(ChunkPos, Chunk)>) -> (r: bool)
    ensures
        r == (coords@.map_values(|c: ChunkPos| c@) == batch_coords(batch@)),
{
    let n = coords.len();
    if n != batch.len() {
        proof {
            assert(coords@.map_values(|c: ChunkPos| c@).len() != batch_coords(batch@).len());
        }
        return false;
    }
    for i in 0..n
        invariant
            n == coords@.len(),
            n == batch@.len(),
            forall|j: int| 0 <= j < i ==> (#[trigger] coords@[j])@ == batch@[j].0@,
    {
        let a = coords[i];
        let b = batch[i].0;
        if a.x != b.x || a.y != b.y || a.z != b.z {
            proof {
                assert(coords@.map_values(|c: ChunkPos| c@)[i as int] != batch_coords(
                    batch@,
                )[i as int]);
            }
            return false;
        }
        proof {
            assert(coords@[i as int]@ == batch@[i as int].0@);
        }
    }
    proof {
        assert(coords@.map_values(|c: ChunkPos| c@) =~= batch_coords(batch@));
    }
    true
}

/// Whether a coordinate occurs among the first `upto` batch entries.
fn batch_prefix_has(batch: &Vec<(ChunkPos, Chunk)>, upto: usize, c: ChunkPos) -> (r: bool)
    requires
        upto <= batch@.len(),
    ensures
        r == locs_has(batch_coords(batch@.take(upto as int)), c@),
{
    let ghost pre = batch_coords(batch@.take(upto as int));
    for j in 0..upto
        invariant
            upto <= batch@.len(),
            pre == batch_coords(batch@.take(upto as int)),
            forall|i: int| 0 <= i < j ==> batch@[i].0@ != c@,
    {
        let b = batch[j].0;
        if b.x == c.x && b.y == c.y && b.z == c.z {
            proof {
                assert(pre[j as int] == c@);
            }
            return true;
        }
    }
    proof {
        if locs_has(pre, c@) {
            let j = choose|j: int| 0 <= j < pre.len() && pre[j] == c@;
            assert(batch@[j].0@ == c@);
        }
    }
    false
}

/// A copy of a coordinate list.
pub fn copy_coords(v: &Vec<ChunkPos>) -> (r: Vec<ChunkPos>)
    ensures
        r@ == v@,
{
    let n = v.len();
    let mut r: Vec<ChunkPos> = Vec::new();
    for i in 0..n
        invariant
            n == v@.len(),
            r@ =~= v@.take(i as int),
    {
        r.push(v[i]);
    }
    proof {
        assert(v@.take(n as int) =~= v@);
    }
    r
}

/// What a viewpoint receives when it crosses a chunk boundary: resident
/// chunk data delivered at once, coordinates now on order with the worker,
/// and the stale decrements that were skipped.
pub struct MoveResult {
    pub to_fetch: Vec<ChunkPos>,
    pub deliver: Vec<(ChunkPos, Chunk)>,
    pub stale: Vec<ChunkPos>,
}

/// What a viewpoint receives when it joins: chunk data the authority
/// already held, delivered at once, and the coordinates now on order with
/// the worker.
pub struct JoinResult {
    pub to_fetch: Vec<ChunkPos>,
    pub deliver: Vec<(ChunkPos, Chunk)>,
}

} // verus!
