//! The viewpoint streaming worker.
//!
//! The worker drains control messages (coalescing movement: only the latest
//! position matters), throttles outbound movement reports, keeps a pending
//! queue of chunk coordinates sorted by distance and pruned to the draw
//! distance, and meshes a bounded batch per cycle — a chunk is meshed only
//! once all six face-adjacent neighbors are in the local cache, since
//! boundary culling consults them. The surrounding program runs the loop and
//! the channels; every decision is made here.

use vstd::prelude::*;

use crate::chunk::Chunk;
use crate::coords::{
    chunk_to_world, chunk_to_world_spec, has_room_for_neighbors, lemma_sq_bound, neighbor_offset,
    neighbors, pos_plus, world_dist_sq, world_dist_sq_exec, world_in_chunk_range,
    world_to_chunk_spec, ChunkPos, WorldPos,
};
use crate::material::Material;
use crate::mesh::{greedy_mesh_spec, Greedy, Vertex};
use crate::messages::Message;

verus! {

/// Movement reports to the authority are sent at most once per this many
/// milliseconds of wall time.
pub const MOVE_REPORT_INTERVAL_MS: u64 = 50;

/// The pending queue is re-sorted every this many work cycles (or at once
/// after a fresh delivery).
pub const RESORT_INTERVAL: u32 = 10;

/// Whether enough wall time has passed to send the next movement report.
pub fn should_send_move(elapsed_ms: u64) -> (r: bool)
    ensures
        r == (elapsed_ms > MOVE_REPORT_INTERVAL_MS),
{
    elapsed_ms > MOVE_REPORT_INTERVAL_MS
}

/// The local chunk cache of one viewpoint: a derived, read-only copy of
/// delivered chunks, keyed by coordinate. It never owns canonical state.
pub struct ChunkCache {
    keys: Vec<ChunkPos>,
    grids: Vec<Chunk>,
}

impl ChunkCache {
    /// The two columns line up and keys are unique.
    pub closed spec fn wf(&self) -> bool {
        &&& self.grids@.len() == self.keys@.len()
        &&& forall|i: int, j: int|
            0 <= i < j < self.keys@.len() ==> (#[trigger] self.keys@[i])@ != (
            #[trigger] self.keys@[j])@
    }

    /// Whether a coordinate is cached.
    pub closed spec fn cached(&self, k: (int, int, int)) -> bool {
        exists|i: int| 0 <= i < self.keys@.len() && (#[trigger] self.keys@[i])@ == k
    }

    /// The row of a cached coordinate.
    spec fn idx_of(&self, k: (int, int, int)) -> int {
        choose|i: int| 0 <= i < self.keys@.len() && (#[trigger] self.keys@[i])@ == k
    }

    /// The grid of a cached coordinate (arbitrary otherwise).
    pub closed spec fn grid(&self, k: (int, int, int)) -> Seq<Seq<Seq<Material>>> {
        self.grids@[self.idx_of(k)]@
    }

    /// A row really is where `idx_of` points.
    proof fn lemma_idx(&self, i: int)
        requires
            self.wf(),
            0 <= i < self.keys@.len(),
        ensures
            self.cached(self.keys@[i]@),
            self.idx_of(self.keys@[i]@) == i,
    {
        let k = self.keys@[i]@;
        assert(self.cached(k));
        let j = self.idx_of(k);
        if i != j {
            assert(self.keys@[i]@ != self.keys@[j]@);
        }
    }

    /// An empty cache.
    pub fn new() -> (r: ChunkCache)
        ensures
            r.wf(),
            forall|k: (int, int, int)| !r.cached(k),
    {
        ChunkCache { keys: Vec::new(), grids: Vec::new() }
    }

    /// The row holding a coordinate, if any.
    fn find(&self, k: ChunkPos) -> (r: Option<usize>)
        requires
            self.wf(),
        ensures
            match r {
                Some(i) => self.cached(k@) && i < self.keys@.len() && self.keys@[i as int]@ == k@
                    && self.idx_of(k@) == i,
                None => !self.cached(k@),
            },
    {
        let n = self.keys.len();
        for i in 0..n
            invariant
                self.wf(),
                n == self.keys@.len(),
                forall|j: int| 0 <= j < i ==> (#[trigger] self.keys@[j])@ != k@,
        {
            let kk = self.keys[i];
            if kk.x == k.x && kk.y == k.y && kk.z == k.z {
                proof {
                    self.lemma_idx(i as int);
                }
                return Some(i);
            }
        }
        None
    }

    /// Whether a coordinate is cached.
    pub fn contains(&self, k: ChunkPos) -> (r: bool)
        requires
            self.wf(),
        ensures
            r == self.cached(k@),
    {
        self.find(k).is_some()
    }

    /// The cached chunk at a coordinate, if any.
    pub fn get(&self, k: ChunkPos) -> (r: Option<&Chunk>)
        requires
            self.wf(),
        ensures
            match r {
                Some(c) => self.cached(k@) && c@ == self.grid(k@),
                None => !self.cached(k@),
            },
    {
        match self.find(k) {
            Some(i) => Some(&self.grids[i]),
            None => None,
        }
    }

    /// Store a chunk under a coordinate, replacing any previous data.
    pub fn insert(&mut self, k: ChunkPos, chunk: Chunk)
        requires
            old(self).wf(),
        ensures
            final(self).wf(),
            final(self).cached(k@),
            final(self).grid(k@) == chunk@,
            forall|k2: (int, int, int)|
                k2 != k@ ==> final(self).cached(k2) == old(self).cached(k2) && (old(self).cached(
                    k2,
                ) ==> final(self).grid(k2) == old(self).grid(k2)),
    {
        match self.find(k) {
            Some(i) => {
                self.grids[i] = chunk;
                proof {
                    assert(self.wf());
                    self.lemma_idx(i as int);
                    assert forall|k2: (int, int, int)| k2 != k@ implies self.cached(k2) == old(self).cached(k2) && (old(self).cached(k2) ==> self.grid(k2) == old(self).grid(
                        k2,
                    )) by {
                        if old(self).cached(k2) {
                            let j = old(self).idx_of(k2);
                            old(self).lemma_idx(j);
                            assert(j != i);
                            self.lemma_idx(j);
                        }
                    }
                }
            },
            None => {
                let ghost n = self.keys@.len() as int;
                self.keys.push(k);
                self.grids.push(chunk);
                proof {
                    assert forall|i: int, j: int|
                        0 <= i < j < self.keys@.len() implies (#[trigger] self.keys@[i])@ != (
                    #[trigger] self.keys@[j])@ by {
                        if j == n {
                            assert(self.keys@[i] == old(self).keys@[i]);
                            assert(!old(self).cached(k@));
                        }
                    }
                    assert(self.wf());
                    self.lemma_idx(n);
                    assert forall|k2: (int, int, int)| k2 != k@ implies self.cached(k2) == old(self).cached(k2) && (old(self).cached(k2) ==> self.grid(k2) == old(self).grid(
                        k2,
                    )) by {
                        if old(self).cached(k2) {
                            let j = old(self).idx_of(k2);
                            old(self).lemma_idx(j);
                            assert(self.keys@[j]@ == k2);
                            self.lemma_idx(j);
                        } else {
                            if self.cached(k2) {
                                let j = self.idx_of(k2);
                                assert(0 <= j < self.keys@.len() && self.keys@[j]@ == k2);
                                assert(j == n);
                            }
                        }
                    }
                }
            },
        }
    }

    /// Forget a coordinate, if cached.
    pub fn remove(&mut self, k: ChunkPos)
        requires
            old(self).wf(),
        ensures
            final(self).wf(),
            !final(self).cached(k@),
            forall|k2: (int, int, int)|
                k2 != k@ ==> final(self).cached(k2) == old(self).cached(k2) && (old(self).cached(
                    k2,
                ) ==> final(self).grid(k2) == old(self).grid(k2)),
    {
        match self.find(k) {
            None => {},
            Some(i) => {
                let ghost n = self.keys@.len() as int;
                self.keys.swap_remove(i);
                self.grids.swap_remove(i);
                proof {
                    assert forall|a: int, b: int|
                        0 <= a < b < self.keys@.len() implies (#[trigger] self.keys@[a])@ != (
                    #[trigger] self.keys@[b])@ by {
                        let oa: int = if a == i {
                            n - 1
                        } else {
                            a
                        };
                        let ob: int = if b == i {
                            n - 1
                        } else {
                            b
                        };
                        assert(self.keys@[a] == old(self).keys@[oa]);
                        assert(self.keys@[b] == old(self).keys@[ob]);
                    }
                    assert(self.wf());
                    assert(!self.cached(k@)) by {
                        if self.cached(k@) {
                            let j = self.idx_of(k@);
                            assert(0 <= j < self.keys@.len() && self.keys@[j]@ == k@);
                            let oj: int = if j == i {
                                n - 1
                            } else {
                                j
                            };
                            assert(self.keys@[j] == old(self).keys@[oj]);
                            assert(oj != i);
                            assert(old(self).keys@[oj]@ != old(self).keys@[i as int]@);
                        }
                    }
                    assert forall|k2: (int, int, int)| k2 != k@ implies self.cached(k2) == old(self).cached(k2) && (old(self).cached(k2) ==> self.grid(k2) == old(self).grid(
                        k2,
                    )) by {
                        if old(self).cached(k2) {
                            let j = old(self).idx_of(k2);
                            old(self).lemma_idx(j);
                            assert(j != i);
                            let nj: int = if j == n - 1 {
                                i as int
                            } else {
                                j
                            };
                            if j == n - 1 {
                                assert(i < n - 1);
                            }
                            assert(self.keys@[nj] == old(self).keys@[j]);
                            self.lemma_idx(nj);
                        } else {
                            if self.cached(k2) {
                                let j = self.idx_of(k2);
                                assert(0 <= j < self.keys@.len() && self.keys@[j]@ == k2);
                                let oj: int = if j == i {
                                    n - 1
                                } else {
                                    j
                                };
                                assert(self.keys@[j] == old(self).keys@[oj]);
                                assert(old(self).cached(k2));
                            }
                        }
                    }
                }
            },
        }
    }
}

/// What one drain of the control channel amounts to, oldest message first,
/// stopping at the first leave request: at most one effective movement (the
/// latest), the block edits in order, and whether an unexpected message
/// variant arrived (a protocol violation).
pub struct Coalesced {
    pub move_to: Option<WorldPos>,
    pub blocks: Vec<(WorldPos, Material)>,
    pub leave: bool,
    pub protocol_error: bool,
}

/// Mathematical model of a drain.
pub struct CoalescedModel {
    pub move_to: Option<WorldPos>,
    pub blocks: Seq<(WorldPos, Material)>,
    pub leave: bool,
    pub protocol_error: bool,
}

/// The meaning of a message sequence, oldest first: movement coalesces
/// (last write wins), block edits queue in order, the first leave request
/// ends processing, and any other variant is a protocol violation.
pub open spec fn coalesce_spec(msgs: Seq<Message>) -> CoalescedModel
    decreases msgs.len(),
{
    if msgs.len() == 0 {
        CoalescedModel {
            move_to: None,
            blocks: Seq::empty(),
            leave: false,
            protocol_error: false,
        }
    } else {
        match msgs[0] {
            Message::Leave => CoalescedModel {
                move_to: None,
                blocks: Seq::empty(),
                leave: true,
                protocol_error: false,
            },
            Message::PlayerMove(p) => {
                let rest = coalesce_spec(msgs.drop_first());
                CoalescedModel {
                    move_to: if rest.move_to is Some {
                        rest.move_to
                    } else {
                        Some(p)
                    },
                    ..rest
                }
            },
            Message::SetBlock(w, m) => {
                let rest = coalesce_spec(msgs.drop_first());
                CoalescedModel { blocks: seq![(w, m)] + rest.blocks, ..rest }
            },
            Message::Chunks(_) => {
                let rest = coalesce_spec(msgs.drop_first());
                CoalescedModel { protocol_error: true, ..rest }
            },
        }
    }
}

/// Drain the control messages of one cycle into their combined meaning:
/// exactly `coalesce_spec` of the sequence. Three rapid movement updates
/// coalesce into one report carrying only the last position.
pub fn coalesce_messages(msgs: &Vec<Message>) -> (r: Coalesced)
    ensures
        ({
            let m = coalesce_spec(msgs@);
            &&& r.move_to == m.move_to
            &&& r.blocks@ == m.blocks
            &&& r.leave == m.leave
            &&& r.protocol_error == m.protocol_error
        }),
{
    let mut move_to: Option<WorldPos> = None;
    let mut blocks: Vec<(WorldPos, Material)> = Vec::new();
    let mut leave = false;
    let mut protocol_error = false;
    let n = msgs.len();
    let mut i = n;
    proof {
        assert(msgs@.subrange(n as int, n as int) =~= Seq::<Message>::empty());
        assert(blocks@ =~= coalesce_spec(msgs@.subrange(n as int, n as int)).blocks);
    }
    while i > 0
        invariant
            i <= n,
            n == msgs@.len(),
            ({
                let m = coalesce_spec(msgs@.subrange(i as int, n as int));
                &&& move_to == m.move_to
                &&& blocks@ == m.blocks
                &&& leave == m.leave
                &&& protocol_error == m.protocol_error
            }),
        decreases i,
    {
        i -= 1;
        let ghost suffix = msgs@.subrange(i as int, n as int);
        proof {
            assert(suffix.drop_first() =~= msgs@.subrange(i as int + 1, n as int));
            assert(suffix[0] == msgs@[i as int]);
        }
        match &msgs[i] {
            Message::Leave => {
                move_to = None;
                blocks = Vec::new();
                leave = true;
                protocol_error = false;
                proof {
                    assert(blocks@ =~= coalesce_spec(suffix).blocks);
                }
            },
            Message::PlayerMove(p) => {
                if move_to.is_none() {
                    move_to = Some(*p);
                }
            },
            Message::SetBlock(w, m) => {
                blocks.insert(0, (*w, *m));
                proof {
                    assert(blocks@ =~= seq![(*w, *m)] + coalesce_spec(
                        msgs@.subrange(i as int + 1, n as int),
                    ).blocks);
                }
            },
            Message::Chunks(_) => {
                protocol_error = true;
            },
        }
    }
    proof {
        assert(msgs@.subrange(0, n as int) =~= msgs@);
    }
    Coalesced { move_to, blocks, leave, protocol_error }
}

/// Whether a chunk coordinate can be meshed from the cache: the chunk and
/// all six face-adjacent neighbors are cached, every grid is a well-formed
/// cube, the neighbors have the chunk's own size, and all seven coordinates
/// are representable.
pub open spec fn meshable(cache: ChunkCache, k: (int, int, int)) -> bool {
    &&& has_room_for_neighbors(k)
    &&& cache.cached(k)
    &&& crate::chunk::cube_wf(cache.grid(k))
    &&& forall|j: int|
        #![trigger neighbor_offset(j)]
        0 <= j < 6 ==> {
            let nk = pos_plus(k, neighbor_offset(j));
            cache.cached(nk) && crate::chunk::cube_wf(cache.grid(nk)) && cache.grid(nk).len()
                == cache.grid(k).len()
        }
}

/// A sequence with no entries has the empty multiset.
proof fn lemma_empty_to_multiset(s: Seq<ChunkPos>)
    requires
        s.len() == 0,
    ensures
        s.to_multiset() == vstd::multiset::Multiset::<ChunkPos>::empty(),
{
    broadcast use vstd::multiset::group_multiset_axioms;

    s.to_multiset_ensures();
    assert(s.to_multiset() =~= vstd::multiset::Multiset::<ChunkPos>::empty());
}

/// The sort key of the pending queue: squared world distance from the
/// chunk's center to the viewpoint.
pub open spec fn dist_key(player: (int, int, int), c: ChunkPos) -> int {
    world_dist_sq(chunk_to_world_spec(c@), player)
}

/// The six neighbor grids of a cached coordinate, in the fixed order
/// -x, +x, -y, +y, -z, +z.
pub open spec fn neighbor_grids(cache: ChunkCache, k: (int, int, int)) -> Seq<
    Seq<Seq<Seq<Material>>>,
> {
    Seq::new(6, |j: int| cache.grid(pos_plus(k, neighbor_offset(j))))
}

/// One meshed chunk, ready for the presentation layer: both phase streams
/// and a copy of the voxel data (for physics-shape construction outside the
/// library).
pub struct MeshedChunk {
    pub pos: ChunkPos,
    pub opaque: Vec<Vertex>,
    pub transparent: Vec<Vertex>,
    pub chunk: Chunk,
}

/// The eligible coordinates among the first `i` pending entries, in order.
pub open spec fn meshable_prefix(cache: ChunkCache, pend: Seq<ChunkPos>, i: int) -> Seq<ChunkPos>
    decreases i,
{
    if i <= 0 {
        Seq::empty()
    } else if meshable(cache, pend[i - 1]@) {
        meshable_prefix(cache, pend, i - 1).push(pend[i - 1])
    } else {
        meshable_prefix(cache, pend, i - 1)
    }
}

/// The ineligible coordinates among the first `i` pending entries, in
/// order: they are retried next cycle.
pub open spec fn skipped_prefix(cache: ChunkCache, pend: Seq<ChunkPos>, i: int) -> Seq<ChunkPos>
    decreases i,
{
    if i <= 0 {
        Seq::empty()
    } else if meshable(cache, pend[i - 1]@) {
        skipped_prefix(cache, pend, i - 1)
    } else {
        skipped_prefix(cache, pend, i - 1).push(pend[i - 1])
    }
}

/// The streaming worker's state: the viewpoint position, the local chunk
/// cache, the pending coordinate queue, the cycle counter driving re-sorts,
/// and the configuration values.
pub struct Streamer {
    player: WorldPos,
    cache: ChunkCache,
    pending: Vec<ChunkPos>,
    counter: u32,
    draw_chunks: i64,
    batch_size: usize,
}

impl Streamer {
    /// The cache is well-formed and the viewpoint position representable.
    pub closed spec fn wf(&self) -> bool {
        &&& self.cache.wf()
        &&& world_in_chunk_range(self.player@)
        &&& 0 <= self.draw_chunks <= crate::server::MAX_DRAW_CHUNKS
    }

    /// The local cache.
    pub closed spec fn spec_cache(&self) -> ChunkCache {
        self.cache
    }

    /// Whether a coordinate is in the local cache.
    pub open spec fn cached(&self, k: (int, int, int)) -> bool {
        self.spec_cache().cached(k)
    }

    /// The cached grid of a coordinate.
    pub open spec fn grid(&self, k: (int, int, int)) -> Seq<Seq<Seq<Material>>> {
        self.spec_cache().grid(k)
    }

    /// The pending coordinate queue, closest-first after a re-sort.
    pub closed spec fn spec_pending(&self) -> Seq<ChunkPos> {
        self.pending@
    }

    /// The viewpoint position.
    pub closed spec fn spec_player(&self) -> (int, int, int) {
        self.player@
    }

    /// Work cycles since the last re-sort.
    pub closed spec fn spec_counter(&self) -> int {
        self.counter as int
    }

    /// The configured draw radius in chunks.
    pub closed spec fn spec_draw_chunks(&self) -> int {
        self.draw_chunks as int
    }

    /// The configured per-cycle batch size.
    pub closed spec fn spec_batch_size(&self) -> int {
        self.batch_size as int
    }

    /// A fresh worker: empty cache, empty queue, a re-sort not yet due.
    pub fn new(player: WorldPos, draw_chunks: i64, batch_size: usize) -> (r: Streamer)
        requires
            world_in_chunk_range(player@),
            0 <= draw_chunks <= crate::server::MAX_DRAW_CHUNKS,
        ensures
            r.wf(),
            r.spec_player() == player@,
            r.spec_pending() == Seq::<ChunkPos>::empty(),
            forall|k: (int, int, int)| !r.cached(k),
            r.spec_counter() == 0,
            r.spec_draw_chunks() == draw_chunks,
            r.spec_batch_size() == batch_size,
    {
        let r = Streamer {
            player,
            cache: ChunkCache::new(),
            pending: Vec::new(),
            counter: 0,
            draw_chunks,
            batch_size,
        };
        proof {
            assert(r.spec_pending() =~= Seq::<ChunkPos>::empty());
        }
        r
    }

    /// Adopt a coalesced movement update.
    pub fn set_player(&mut self, p: WorldPos)
        requires
            old(self).wf(),
            world_in_chunk_range(p@),
        ensures
            final(self).wf(),
            final(self).spec_player() == p@,
            final(self).spec_cache() == old(self).spec_cache(),
            final(self).spec_pending() == old(self).spec_pending(),
            final(self).spec_counter() == old(self).spec_counter(),
            final(self).spec_draw_chunks() == old(self).spec_draw_chunks(),
            final(self).spec_batch_size() == old(self).spec_batch_size(),
    {
        self.player = p;
    }

    /// Whether the periodic re-sort is due this cycle.
    pub fn resort_due(&self) -> (r: bool)
        ensures
            r == (self.spec_counter() >= RESORT_INTERVAL),
    {
        self.counter >= RESORT_INTERVAL
    }

    /// Merge a delivery of raw chunk grids: each chunk enters the cache
    /// (replacing any previous data for its coordinate), its coordinate is
    /// appended to the pending queue, and the next re-sort becomes due at
    /// once.
    pub fn merge_delivery(&mut self, chunks: Vec<(ChunkPos, Chunk)>)
        requires
            old(self).wf(),
        ensures
            final(self).wf(),
            final(self).spec_player() == old(self).spec_player(),
            final(self).spec_draw_chunks() == old(self).spec_draw_chunks(),
            final(self).spec_batch_size() == old(self).spec_batch_size(),
            final(self).spec_counter() >= RESORT_INTERVAL,
            final(self).spec_pending() == old(self).spec_pending() + chunks@.map_values(
                |p: (ChunkPos, Chunk)| p.0,
            ),
            forall|k: (int, int, int)|
                final(self).cached(k) == (old(self).cached(k) || crate::server::locs_has(
                    crate::server::batch_coords(chunks@),
                    k,
                )),
            forall|k: (int, int, int)|
                crate::server::locs_has(crate::server::batch_coords(chunks@), k) ==> final(self).grid(k) == crate::server::batch_last_grid(chunks@, k),
            forall|k: (int, int, int)|
                !crate::server::locs_has(crate::server::batch_coords(chunks@), k) && old(self).cached(k) ==> final(self).grid(k) == old(self).grid(k),
    {
        let n = chunks.len();
        let ghost batch = chunks@;
        let mut chunks = chunks;
        let ghost pend0 = self.pending@;
        let mut idx: usize = 0;
        while idx < n
            invariant
                n == batch.len(),
                idx <= n,
                chunks@ =~= batch,
                self.wf(),
                self.player == old(self).player,
                self.draw_chunks == old(self).draw_chunks,
                self.batch_size == old(self).batch_size,
                self.pending@ =~= pend0 + batch.map_values(|p: (ChunkPos, Chunk)| p.0).take(
                    idx as int,
                ),
                forall|k: (int, int, int)|
                    self.cache.cached(k) == (old(self).cache.cached(k) || crate::server::locs_has(
                        crate::server::batch_coords(batch.take(idx as int)),
                        k,
                    )),
                forall|k: (int, int, int)|
                    crate::server::locs_has(
                        crate::server::batch_coords(batch.take(idx as int)),
                        k,
                    ) ==> self.cache.grid(k) == crate::server::batch_last_grid(
                        batch.take(idx as int),
                        k,
                    ),
                forall|k: (int, int, int)|
                    !crate::server::locs_has(
                        crate::server::batch_coords(batch.take(idx as int)),
                        k,
                    ) && old(self).cache.cached(k) ==> self.cache.grid(k) == old(self).cache.grid(k),
            decreases n - idx,
        {
            let entry = &chunks[idx];
            let c = entry.0;
            let dup = entry.1.duplicate();
            let ghost prefix = crate::server::batch_coords(batch.take(idx as int));
            let ghost prefix1 = crate::server::batch_coords(batch.take(idx as int + 1));
            proof {
                assert(batch.take(idx as int + 1) =~= batch.take(idx as int).push(
                    batch[idx as int],
                ));
                assert(prefix1 =~= prefix.push(c@));
                assert forall|k: (int, int, int)| #[trigger] crate::server::locs_has(prefix1, k)
                    == (crate::server::locs_has(prefix, k) || k == c@) by {
                    if crate::server::locs_has(prefix1, k) {
                        let j = choose|j: int| 0 <= j < prefix1.len() && prefix1[j] == k;
                        if j < prefix.len() {
                            assert(prefix[j] == k);
                        }
                    }
                    if crate::server::locs_has(prefix, k) {
                        let j = choose|j: int| 0 <= j < prefix.len() && prefix[j] == k;
                        assert(prefix1[j] == k);
                    }
                    if k == c@ {
                        assert(prefix1[prefix1.len() - 1] == k);
                    }
                }
                assert forall|k: (int, int, int)|
                    crate::server::locs_has(prefix, k) && k != c@ implies #[trigger]
                    crate::server::batch_last_grid(batch.take(idx as int + 1), k)
                    == crate::server::batch_last_grid(batch.take(idx as int), k) by {
                    assert(batch.take(idx as int + 1).drop_last() =~= batch.take(idx as int));
                    assert(batch.take(idx as int + 1).last() == batch[idx as int]);
                }
                assert(crate::server::batch_last_grid(batch.take(idx as int + 1), c@)
                    == batch[idx as int].1@) by {
                    assert(batch.take(idx as int + 1).last() == batch[idx as int]);
                }
            }
            self.cache.insert(c, dup);
            self.pending.push(c);
            proof {
                assert(self.pending@ =~= pend0 + batch.map_values(
                    |p: (ChunkPos, Chunk)| p.0,
                ).take(idx as int + 1));
            }
            idx += 1;
        }
        if self.counter < RESORT_INTERVAL {
            self.counter = RESORT_INTERVAL;
        }
        proof {
            assert(batch.take(n as int) =~= batch);
            assert(batch.map_values(|p: (ChunkPos, Chunk)| p.0).take(n as int) =~= batch.map_values(
                |p: (ChunkPos, Chunk)| p.0,
            ));
        }
    }

    /// The number of queued pending coordinates.
    pub fn pending_len(&self) -> (r: usize)
        ensures
            r == self.spec_pending().len(),
    {
        self.pending.len()
    }

    /// One queued pending coordinate.
    pub fn pending_at(&self, i: usize) -> (r: ChunkPos)
        requires
            i < self.spec_pending().len(),
        ensures
            r == self.spec_pending()[i as int],
    {
        self.pending[i]
    }

    /// Whether a coordinate is in the local cache (for callers and tests).
    pub fn is_cached(&self, k: ChunkPos) -> (r: bool)
        requires
            self.wf(),
        ensures
            r == self.cached(k@),
    {
        self.cache.contains(k)
    }

    /// The pending queue's sort key for one coordinate.
    fn key_of(&self, c: ChunkPos) -> (r: i128)
        requires
            self.wf(),
        ensures
            r == dist_key(self.spec_player(), c),
    {
        world_dist_sq_exec(chunk_to_world(c), self.player)
    }

    /// Re-sort the pending queue by ascending distance from the viewpoint
    /// and drop the far end: entries whose chunk lies outside the draw
    /// distance are popped off the back and forgotten (returned, and removed
    /// from the cache) until the queue's farthest entry is in range. The
    /// cycle counter restarts.
    #[verifier::loop_isolation(false)]
    pub fn resort(&mut self) -> (pruned: Vec<ChunkPos>)
        requires
            old(self).wf(),
        ensures
            final(self).wf(),
            final(self).spec_player() == old(self).spec_player(),
            final(self).spec_draw_chunks() == old(self).spec_draw_chunks(),
            final(self).spec_batch_size() == old(self).spec_batch_size(),
            final(self).spec_counter() == 0,
            ({
                let pl = old(self).spec_player();
                let pc = world_to_chunk_spec(pl);
                let rad = old(self).spec_draw_chunks();
                let pend = final(self).spec_pending();
                &&& forall|a: int, b: int|
                    0 <= a < b < pend.len() ==> dist_key(pl, #[trigger] pend[a]) <= dist_key(
                        pl,
                        #[trigger] pend[b],
                    )
                &&& pend.to_multiset().add(pruned@.to_multiset()) == old(
                    self,
                ).spec_pending().to_multiset()
                &&& forall|j: int|
                    0 <= j < pruned@.len() ==> crate::coords::chunk_dist_sq(
                        (#[trigger] pruned@[j])@,
                        pc,
                    ) > rad * rad
                &&& pend.len() > 0 ==> crate::coords::chunk_dist_sq(pend.last()@, pc) <= rad * rad
                &&& forall|k: (int, int, int)|
                    final(self).cached(k) == (old(self).cached(k) && !crate::server::has_coord(
                        pruned@,
                        k,
                    ))
                &&& forall|k: (int, int, int)|
                    final(self).cached(k) ==> final(self).grid(k) == old(self).grid(k)
            }),
    {
        let ghost pl = self.player@;
        let ghost orig = self.pending@;
        let mut rest: Vec<ChunkPos> = Vec::new();
        core::mem::swap(&mut rest, &mut self.pending);
        let mut sorted: Vec<ChunkPos> = Vec::new();
        proof {
            broadcast use vstd::multiset::group_multiset_axioms;

            lemma_empty_to_multiset(sorted@);
            assert(sorted@.to_multiset().add(rest@.to_multiset()) =~= orig.to_multiset());
        }
        while rest.len() > 0
            invariant
                self.wf(),
                self.player@ == pl,
                self.cache == old(self).cache,
                self.draw_chunks == old(self).draw_chunks,
                self.batch_size == old(self).batch_size,
                forall|a: int, b: int|
                    0 <= a < b < sorted@.len() ==> dist_key(pl, #[trigger] sorted@[a]) <= dist_key(
                        pl,
                        #[trigger] sorted@[b],
                    ),
                forall|a: int, b: int|
                    0 <= a < sorted@.len() && 0 <= b < rest@.len() ==> dist_key(
                        pl,
                        #[trigger] sorted@[a],
                    ) <= dist_key(pl, #[trigger] rest@[b]),
                sorted@.to_multiset().add(rest@.to_multiset()) == orig.to_multiset(),
            decreases rest@.len(),
        {
            let n = rest.len();
            let mut mi: usize = 0;
            let mut mk = self.key_of(rest[0]);
            for t in 1..n
                invariant
                    self.wf(),
                    self.player@ == pl,
                    n == rest@.len(),
                    mi < n,
                    mk == dist_key(pl, rest@[mi as int]),
                    forall|u: int| 0 <= u < t ==> mk <= dist_key(pl, #[trigger] rest@[u]),
            {
                let k = self.key_of(rest[t]);
                if k < mk {
                    mi = t;
                    mk = k;
                }
            }
            let ghost rest_pre = rest@;
            let ghost sorted_pre = sorted@;
            let x = rest.remove(mi);
            sorted.push(x);
            proof {
                broadcast use vstd::multiset::group_multiset_axioms;

                rest_pre.to_multiset_ensures();
                sorted_pre.to_multiset_ensures();
                assert(rest@.to_multiset() =~= rest_pre.to_multiset().remove(x));
                assert(sorted@.to_multiset() =~= sorted_pre.to_multiset().insert(x));
                assert(rest_pre.contains(x)) by {
                    assert(rest_pre[mi as int] == x);
                }
                assert(rest_pre.to_multiset().count(x) > 0);
                assert(sorted@.to_multiset().add(rest@.to_multiset()) =~= sorted_pre.to_multiset().add(
                    rest_pre.to_multiset(),
                ));
                assert forall|a: int, b: int|
                    0 <= a < sorted@.len() && 0 <= b < rest@.len() implies dist_key(
                    pl,
                    #[trigger] sorted@[a],
                ) <= dist_key(pl, #[trigger] rest@[b]) by {
                    let ob: int = if b < mi {
                        b
                    } else {
                        b + 1
                    };
                    assert(rest@[b] == rest_pre[ob]);
                    if a < sorted_pre.len() {
                        assert(sorted@[a] == sorted_pre[a]);
                    } else {
                        assert(sorted@[a] == x);
                        assert(mk <= dist_key(pl, rest_pre[ob]));
                    }
                }
                assert forall|a: int, b: int|
                    0 <= a < b < sorted@.len() implies dist_key(pl, #[trigger] sorted@[a])
                    <= dist_key(pl, #[trigger] sorted@[b]) by {
                    if b == sorted@.len() - 1 {
                        assert(sorted@[a] == sorted_pre[a]);
                        assert(sorted@[b] == x);
                        assert(dist_key(pl, sorted_pre[a]) <= dist_key(pl, rest_pre[mi as int]));
                    }
                }
            }
        }
        // Drop the far end while it lies outside the draw distance.
        let pc = crate::coords::world_to_chunk(self.player);
        let rad = self.draw_chunks;
        proof {
            broadcast use vstd::multiset::group_multiset_axioms;

            lemma_sq_bound(rad as int, crate::server::MAX_DRAW_CHUNKS as int);
            lemma_empty_to_multiset(rest@);
        }
        let rad2: i128 = (rad as i128) * (rad as i128);
        let mut pruned: Vec<ChunkPos> = Vec::new();
        proof {
            broadcast use vstd::multiset::group_multiset_axioms;

            lemma_empty_to_multiset(pruned@);
            assert(sorted@.to_multiset().add(pruned@.to_multiset()) =~= orig.to_multiset());
        }
        while sorted.len() > 0 && crate::coords::chunk_dist_sq_exec(sorted[sorted.len() - 1], pc)
            > rad2
            invariant
                forall|a: int, b: int|
                    0 <= a < b < sorted@.len() ==> dist_key(pl, #[trigger] sorted@[a]) <= dist_key(
                        pl,
                        #[trigger] sorted@[b],
                    ),
                sorted@.to_multiset().add(pruned@.to_multiset()) == orig.to_multiset(),
                forall|j: int|
                    0 <= j < pruned@.len() ==> crate::coords::chunk_dist_sq(
                        (#[trigger] pruned@[j])@,
                        pc@,
                    ) > rad * rad,
                self.cache.wf(),
                self.player == old(self).player,
                self.draw_chunks == old(self).draw_chunks,
                self.batch_size == old(self).batch_size,
                self.counter == old(self).counter,
                forall|k: (int, int, int)|
                    #![trigger self.cache.cached(k)]
                    #![trigger old(self).cache.cached(k)]
                    #![trigger crate::server::has_coord(pruned@, k)]
                    self.cache.cached(k) == (old(self).cache.cached(k)
                        && !crate::server::has_coord(pruned@, k)),
                forall|k: (int, int, int)|
                    #![trigger self.cache.grid(k)]
                    #![trigger old(self).cache.grid(k)]
                    self.cache.cached(k) ==> self.cache.grid(k) == old(self).cache.grid(k),
            decreases sorted@.len(),
        {
            let lastc = sorted[sorted.len() - 1];
            let ghost sorted_pre = sorted@;
            let ghost pruned_pre = pruned@;
            sorted.pop();
            self.cache.remove(lastc);
            pruned.push(lastc);
            proof {
                broadcast use vstd::multiset::group_multiset_axioms;

                sorted_pre.to_multiset_ensures();
                pruned_pre.to_multiset_ensures();
                assert(sorted@ =~= sorted_pre.remove(sorted_pre.len() - 1));
                assert(sorted@.to_multiset() =~= sorted_pre.to_multiset().remove(lastc));
                assert(pruned@.to_multiset() =~= pruned_pre.to_multiset().insert(lastc));
                assert(sorted_pre.contains(lastc)) by {
                    assert(sorted_pre[sorted_pre.len() - 1] == lastc);
                }
                assert(sorted_pre.to_multiset().count(lastc) > 0);
                assert(sorted@.to_multiset().add(pruned@.to_multiset()) =~= sorted_pre.to_multiset().add(
                    pruned_pre.to_multiset(),
                ));
                assert forall|k: (int, int, int)|
                    #![trigger self.cache.cached(k)]
                    #![trigger old(self).cache.cached(k)]
                    #![trigger crate::server::has_coord(pruned@, k)]
                    self.cache.cached(k) == (old(self).cache.cached(k)
                        && !crate::server::has_coord(pruned@, k)) && (self.cache.cached(k)
                        ==> self.cache.grid(k) == old(self).cache.grid(k)) by {
                    if crate::server::has_coord(pruned@, k) {
                        let j = choose|j: int|
                            0 <= j < pruned@.len() && (#[trigger] pruned@[j])@ == k;
                        if j < pruned_pre.len() {
                            assert(crate::server::has_coord(pruned_pre, k));
                            if k != lastc@ {
                            }
                            assert(!self.cache.cached(k));
                        } else {
                            assert(k == lastc@);
                            assert(!self.cache.cached(k));
                        }
                    } else {
                        assert(!crate::server::has_coord(pruned_pre, k)) by {
                            if crate::server::has_coord(pruned_pre, k) {
                                let j = choose|j: int|
                                    0 <= j < pruned_pre.len() && (#[trigger] pruned_pre[j])@ == k;
                                assert(pruned@[j]@ == k);
                            }
                        }
                        assert(k != lastc@) by {
                            if k == lastc@ {
                                assert(pruned@[pruned@.len() - 1]@ == k);
                            }
                        }
                    }
                }
            }
        }
        let ghost sv = sorted@;
        self.pending = sorted;
        self.counter = 0;
        proof {
            assert(self.spec_pending() == sv);
            assert forall|k: (int, int, int)|
                #![trigger self.cached(k)]
                #![trigger old(self).cached(k)]
                #![trigger crate::server::has_coord(pruned@, k)]
                self.cached(k) == self.cache.cached(k) && old(self).cached(k) == old(
                    self,
                ).cache.cached(k) && self.grid(k) == self.cache.grid(k) && old(self).grid(k)
                    == old(self).cache.grid(k) by {}
            let pl2 = old(self).spec_player();
            let pc2 = world_to_chunk_spec(pl2);
            let rad2 = old(self).spec_draw_chunks();
            assert(pl2 == pl);
            assert(pc2 == pc@);
            assert(rad2 == rad as int);
            assert(forall|a: int, b: int|
                0 <= a < b < sv.len() ==> dist_key(pl2, #[trigger] sv[a]) <= dist_key(
                    pl2,
                    #[trigger] sv[b],
                ));
            assert(sv.to_multiset().add(pruned@.to_multiset()) == orig.to_multiset());
            assert(orig == old(self).spec_pending());
            assert(forall|j: int|
                0 <= j < pruned@.len() ==> crate::coords::chunk_dist_sq(
                    (#[trigger] pruned@[j])@,
                    pc2,
                ) > rad2 * rad2);
            assert(sv.len() > 0 ==> crate::coords::chunk_dist_sq(sv.last()@, pc2) <= rad2 * rad2);
            assert forall|k: (int, int, int)|
                self.cached(k) == (old(self).cached(k) && !crate::server::has_coord(
                    pruned@,
                    k,
                )) by {
                assert(self.cache.cached(k) == (old(self).cache.cached(k)
                    && !crate::server::has_coord(pruned@, k)));
            }
            assert forall|k: (int, int, int)| self.cached(k) implies self.grid(k) == old(
                self,
            ).grid(k) by {
                assert(self.cache.cached(k) ==> self.cache.grid(k) == old(self).cache.grid(k));
            }
        }
        pruned
    }

    /// Mesh one cached chunk, if its six neighbors are cached too: both
    /// phase streams are exactly the greedy mesh of the cached grids, and a
    /// copy of the voxel data rides along. A coordinate that cannot be
    /// meshed yet is reported as such — a normal condition, retried next
    /// cycle.
    pub fn mesh_one(&self, loc: ChunkPos) -> (r: Option<MeshedChunk>)
        requires
            self.wf(),
        ensures
            match r {
                None => !meshable(self.spec_cache(), loc@),
                Some(mc) => {
                    &&& meshable(self.spec_cache(), loc@)
                    &&& mc.pos == loc
                    &&& mc.chunk@ == self.grid(loc@)
                    &&& mc.opaque@.map_values(|x: Vertex| x@) == greedy_mesh_spec(
                        self.grid(loc@),
                        neighbor_grids(self.spec_cache(), loc@),
                        self.grid(loc@).len() as int,
                        false,
                    )
                    &&& mc.transparent@.map_values(|x: Vertex| x@) == greedy_mesh_spec(
                        self.grid(loc@),
                        neighbor_grids(self.spec_cache(), loc@),
                        self.grid(loc@).len() as int,
                        true,
                    )
                },
            },
    {
        if loc.x <= i32::MIN || loc.x >= i32::MAX || loc.y <= i32::MIN || loc.y >= i32::MAX
            || loc.z <= i32::MIN || loc.z >= i32::MAX {
            return None;
        }
        let grid = match self.cache.get(loc) {
            Some(g) => g.duplicate(),
            None => {
                return None;
            },
        };
        if !grid.check_cube() {
            return None;
        }
        let size = grid.size();
        let npos = neighbors(loc);
        let mut nbrs: Vec<Chunk> = Vec::new();
        let mut ok = true;
        for j in 0..6usize
            invariant
                self.wf(),
                npos@.len() == 6,
                forall|t: int|
                    0 <= t < 6 ==> (#[trigger] npos@[t])@ == pos_plus(loc@, neighbor_offset(t)),
                grid@ == self.grid(loc@),
                size == grid@.len(),
                crate::chunk::cube_wf(grid@),
                !ok ==> !meshable(self.spec_cache(), loc@),
                ok ==> nbrs@.len() == j,
                ok ==> forall|t: int|
                    0 <= t < j ==> self.cache.cached(#[trigger] pos_plus(loc@, neighbor_offset(t))),
                ok ==> forall|t: int|
                    0 <= t < j ==> (#[trigger] nbrs@[t])@ == self.cache.grid(
                        pos_plus(loc@, neighbor_offset(t)),
                    ),
                ok ==> forall|t: int|
                    0 <= t < j ==> crate::chunk::cube_wf((#[trigger] nbrs@[t])@),
                ok ==> forall|t: int| 0 <= t < j ==> (#[trigger] nbrs@[t])@.len() == size,
        {
            if ok {
                let nk = npos[j];
                match self.cache.get(nk) {
                    None => {
                        proof {
                            assert(!self.spec_cache().cached(
                                pos_plus(loc@, neighbor_offset(j as int)),
                            ));
                        }
                        ok = false;
                    },
                    Some(g) => {
                        let nb = g.duplicate();
                        if !nb.check_cube() {
                            proof {
                                assert(!crate::chunk::cube_wf(self.spec_cache().grid(
                                    pos_plus(loc@, neighbor_offset(j as int)),
                                )));
                            }
                            ok = false;
                        } else if nb.size() != size {
                            proof {
                                assert(self.spec_cache().grid(
                                    pos_plus(loc@, neighbor_offset(j as int)),
                                ).len() != self.spec_cache().grid(loc@).len());
                            }
                            ok = false;
                        } else {
                            proof {
                                assert(npos@[j as int]@ == pos_plus(
                                    loc@,
                                    neighbor_offset(j as int),
                                ));
                                assert(self.cached(pos_plus(loc@, neighbor_offset(j as int))));
                                assert(nb@ == self.grid(
                                    pos_plus(loc@, neighbor_offset(j as int)),
                                ));
                            }
                            let ghost nbrs_pre = nbrs@;
                            let ghost nbv = nb@;
                            nbrs.push(nb);
                            proof {
                                assert forall|t: int| 0 <= t < j + 1 implies self.cache.cached(
                                    #[trigger] pos_plus(loc@, neighbor_offset(t)),
                                ) by {
                                    if t == j {
                                        assert(self.cache.cached(
                                            pos_plus(loc@, neighbor_offset(j as int)),
                                        ));
                                    }
                                }
                                assert forall|t: int|
                                    0 <= t < j + 1 implies (#[trigger] nbrs@[t])@
                                    == self.cache.grid(pos_plus(loc@, neighbor_offset(t)))
                                    && crate::chunk::cube_wf(nbrs@[t]@) && nbrs@[t]@.len()
                                    == size by {
                                    if t < j {
                                        assert(nbrs@[t] == nbrs_pre[t]);
                                    } else {
                                        assert(nbrs@[t]@ == nbv);
                                    }
                                }
                            }
                        }
                    },
                }
            }
        }
        if !ok {
            return None;
        }
        proof {
            assert forall|j: int|
                #![trigger neighbor_offset(j)]
                0 <= j < 6 implies {
                let nk = pos_plus(loc@, neighbor_offset(j));
                self.spec_cache().cached(nk) && crate::chunk::cube_wf(self.spec_cache().grid(nk))
                    && self.spec_cache().grid(nk).len() == self.spec_cache().grid(loc@).len()
            } by {
                assert(nbrs@[j]@ == self.grid(pos_plus(loc@, neighbor_offset(j))));
                assert(crate::chunk::cube_wf(nbrs@[j]@));
                assert(nbrs@[j]@.len() == size);
            }
            assert(meshable(self.spec_cache(), loc@));
            assert(crate::mesh::mesh_inputs_wf(grid, nbrs@));
            assert(crate::mesh::grid_views(nbrs@) =~= neighbor_grids(self.spec_cache(), loc@));
        }
        let mesher = Greedy;
        let opaque = mesher.mesh(&grid, &nbrs, false);
        let transparent = mesher.mesh(&grid, &nbrs, true);
        Some(MeshedChunk { pos: loc, opaque, transparent, chunk: grid })
    }

    /// Mesh up to `batch_size` coordinates from the front of the pending
    /// queue. Coordinates whose neighbors are not all cached yet are merely
    /// skipped and retried next cycle; meshed coordinates leave the queue.
    /// The cycle counter advances.
    pub fn select_batch(&mut self) -> (r: Vec<MeshedChunk>)
        requires
            old(self).wf(),
        ensures
            final(self).wf(),
            final(self).spec_player() == old(self).spec_player(),
            final(self).spec_cache() == old(self).spec_cache(),
            final(self).spec_draw_chunks() == old(self).spec_draw_chunks(),
            final(self).spec_batch_size() == old(self).spec_batch_size(),
            final(self).spec_counter() == (if old(self).spec_counter() + 1 <= u32::MAX {
                old(self).spec_counter() + 1
            } else {
                old(self).spec_counter()
            }),
            ({
                let pend = old(self).spec_pending();
                let take = if old(self).spec_batch_size() <= pend.len() {
                    old(self).spec_batch_size()
                } else {
                    pend.len() as int
                };
                &&& r@.map_values(|m: MeshedChunk| m.pos) == meshable_prefix(
                    old(self).spec_cache(),
                    pend,
                    take,
                )
                &&& final(self).spec_pending() == skipped_prefix(old(self).spec_cache(), pend, take)
                    + pend.skip(take)
                &&& forall|j: int|
                    0 <= j < r@.len() ==> {
                        let mc = #[trigger] r@[j];
                        &&& meshable(old(self).spec_cache(), mc.pos@)
                        &&& mc.chunk@ == old(self).grid(mc.pos@)
                        &&& mc.opaque@.map_values(|x: Vertex| x@) == greedy_mesh_spec(
                            old(self).grid(mc.pos@),
                            neighbor_grids(old(self).spec_cache(), mc.pos@),
                            old(self).grid(mc.pos@).len() as int,
                            false,
                        )
                        &&& mc.transparent@.map_values(|x: Vertex| x@) == greedy_mesh_spec(
                            old(self).grid(mc.pos@),
                            neighbor_grids(old(self).spec_cache(), mc.pos@),
                            old(self).grid(mc.pos@).len() as int,
                            true,
                        )
                    }
            }),
    {
        let pend_len = self.pending.len();
        let take = if self.batch_size <= pend_len {
            self.batch_size
        } else {
            pend_len
        };
        let ghost pend = self.pending@;
        let mut meshed: Vec<MeshedChunk> = Vec::new();
        let mut rest: Vec<ChunkPos> = Vec::new();
        for i in 0..take
            invariant
                self.wf(),
                *self == *old(self),
                take <= pend.len(),
                pend == self.pending@,
                meshed@.map_values(|m: MeshedChunk| m.pos) == meshable_prefix(
                    self.cache,
                    pend,
                    i as int,
                ),
                rest@ == skipped_prefix(self.cache, pend, i as int),
                forall|j: int|
                    0 <= j < meshed@.len() ==> {
                        let mc = #[trigger] meshed@[j];
                        &&& meshable(self.cache, mc.pos@)
                        &&& mc.chunk@ == self.grid(mc.pos@)
                        &&& mc.opaque@.map_values(|x: Vertex| x@) == greedy_mesh_spec(
                            self.grid(mc.pos@),
                            neighbor_grids(self.cache, mc.pos@),
                            self.grid(mc.pos@).len() as int,
                            false,
                        )
                        &&& mc.transparent@.map_values(|x: Vertex| x@) == greedy_mesh_spec(
                            self.grid(mc.pos@),
                            neighbor_grids(self.cache, mc.pos@),
                            self.grid(mc.pos@).len() as int,
                            true,
                        )
                    },
        {
            let loc = self.pending[i];
            let ghost meshed_pre = meshed@;
            let ghost rest_pre = rest@;
            match self.mesh_one(loc) {
                Some(mc) => {
                    meshed.push(mc);
                    proof {
                        assert(meshed@.map_values(|m: MeshedChunk| m.pos) =~= meshed_pre.map_values(
                            |m: MeshedChunk| m.pos,
                        ).push(loc));
                    }
                },
                None => {
                    rest.push(loc);
                },
            }
        }
        let n = self.pending.len();
        let mut i = take;
        while i < n
            invariant
                take <= i <= n,
                n == pend.len(),
                pend == self.pending@,
                rest@ == skipped_prefix(self.cache, pend, take as int) + pend.subrange(
                    take as int,
                    i as int,
                ),
            decreases n - i,
        {
            let ghost rest_pre = rest@;
            rest.push(self.pending[i]);
            proof {
                assert(rest@ =~= skipped_prefix(self.cache, pend, take as int) + pend.subrange(
                    take as int,
                    i as int + 1,
                ));
            }
            i += 1;
        }
        self.pending = rest;
        if self.counter < u32::MAX {
            self.counter = self.counter + 1;
        }
        proof {
            assert(pend.subrange(take as int, n as int) =~= pend.skip(take as int));
        }
        meshed
    }
}

} // verus!
