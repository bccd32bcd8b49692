//! The canonical chunk table of the authority.
//!
//! One entry per resident chunk coordinate: the chunk's voxel grid and its
//! reference count — how many holders currently require the chunk resident.
//! Every entry's count is at least one, so a coordinate is in the table if
//! and only if its reference count is positive; an entry is removed exactly
//! when its count reaches zero.

use vstd::prelude::*;

use crate::chunk::Chunk;
use crate::coords::ChunkPos;
use crate::material::Material;

verus! {

/// Reference-count addition, saturating at the counter's width.
pub open spec fn bump(c: int, n: int) -> int {
    if c + n <= u64::MAX {
        c + n
    } else {
        u64::MAX as int
    }
}

/// What a decrement did.
#[derive(Clone, Copy, PartialEq, Eq, Structural, Debug)]
pub enum DecOutcome {
    /// The coordinate was not resident; nothing changed.
    Stale,
    /// The count was lowered and the chunk stays resident.
    Kept,
    /// The count reached zero and the chunk was evicted.
    Evicted,
}

/// The canonical table: resident chunks with their reference counts, keyed
/// by chunk coordinate.
pub struct ChunkTable {
    keys: Vec<ChunkPos>,
    grids: Vec<Chunk>,
    counts: Vec<u64>,
}

impl ChunkTable {
    /// The three columns line up, keys are unique, and every count is
    /// positive.
    pub closed spec fn wf(&self) -> bool {
        &&& self.grids@.len() == self.keys@.len()
        &&& self.counts@.len() == self.keys@.len()
        &&& forall|i: int, j: int|
            0 <= i < j < self.keys@.len() ==> (#[trigger] self.keys@[i])@ != (
            #[trigger] self.keys@[j])@
        &&& forall|i: int| 0 <= i < self.counts@.len() ==> #[trigger] self.counts@[i] >= 1
    }

    /// Whether a coordinate is resident in the table.
    pub closed spec fn resident(&self, k: (int, int, int)) -> bool {
        exists|i: int| 0 <= i < self.keys@.len() && (#[trigger] self.keys@[i])@ == k
    }

    /// The row of a resident coordinate.
    spec fn idx_of(&self, k: (int, int, int)) -> int {
        choose|i: int| 0 <= i < self.keys@.len() && (#[trigger] self.keys@[i])@ == k
    }

    /// The reference count of a coordinate; zero when not resident.
    pub closed spec fn refcount(&self, k: (int, int, int)) -> int {
        if self.resident(k) {
            self.counts@[self.idx_of(k)] as int
        } else {
            0
        }
    }

    /// The voxel grid of a resident coordinate (arbitrary otherwise).
    pub closed spec fn grid(&self, k: (int, int, int)) -> Seq<Seq<Seq<Material>>> {
        self.grids@[self.idx_of(k)]@
    }

    /// The chunk value of a resident coordinate (arbitrary otherwise).
    pub closed spec fn chunk_at(&self, k: (int, int, int)) -> Chunk {
        self.grids@[self.idx_of(k)]
    }

    /// The number of resident chunks.
    pub closed spec fn spec_len(&self) -> int {
        self.keys@.len() as int
    }

    /// A row really is where `idx_of` points.
    proof fn lemma_idx(&self, i: int)
        requires
            self.wf(),
            0 <= i < self.keys@.len(),
        ensures
            self.resident(self.keys@[i]@),
            self.idx_of(self.keys@[i]@) == i,
    {
        let k = self.keys@[i]@;
        assert(self.resident(k));
        let j = self.idx_of(k);
        assert(0 <= j < self.keys@.len() && self.keys@[j]@ == k);
        if i != j {
            assert(self.keys@[i]@ != self.keys@[j]@);
        }
    }

    /// The refcount invariant: a chunk coordinate is in the canonical table
    /// if and only if its reference count is positive. This holds of every
    /// well-formed table, and every operation of the table and of the
    /// authority preserves well-formedness.
    pub proof fn lemma_refcount_invariant(&self, k: (int, int, int))
        requires
            self.wf(),
        ensures
            self.resident(k) <==> self.refcount(k) > 0,
            0 <= self.refcount(k) <= u64::MAX,
    {
        if self.resident(k) {
            let i = self.idx_of(k);
            assert(0 <= i < self.keys@.len() && self.keys@[i]@ == k);
            assert(self.counts@[i] >= 1);
        }
    }

    /// An empty table: nothing resident, every count zero.
    pub fn new() -> (r: ChunkTable)
        ensures
            r.wf(),
            r.spec_len() == 0,
            forall|k: (int, int, int)| !r.resident(k),
            forall|k: (int, int, int)| r.refcount(k) == 0,
    {
        ChunkTable { keys: Vec::new(), grids: Vec::new(), counts: Vec::new() }
    }

    /// The row holding a coordinate, if any.
    fn find(&self, k: ChunkPos) -> (r: Option<usize>)
        requires
            self.wf(),
        ensures
            match r {
                Some(i) => self.resident(k@) && i < self.keys@.len() && self.keys@[i as int]@ == k@
                    && self.idx_of(k@) == i,
                None => !self.resident(k@),
            },
    {
        let n = self.keys.len();
        for i in 0..n
            invariant
                self.wf(),
                n == self.keys@.len(),
                forall|j: int| 0 <= j < i ==> (#[trigger] self.keys@[j])@ != k@,
        {
            let kk = self.keys[i];
            if kk.x == k.x && kk.y == k.y && kk.z == k.z {
                proof {
                    self.lemma_idx(i as int);
                }
                return Some(i);
            }
        }
        None
    }

    /// Whether a coordinate is resident.
    pub fn contains(&self, k: ChunkPos) -> (r: bool)
        requires
            self.wf(),
        ensures
            r == self.resident(k@),
    {
        self.find(k).is_some()
    }

    /// The reference count of a coordinate; zero when not resident.
    pub fn refcount_of(&self, k: ChunkPos) -> (r: u64)
        requires
            self.wf(),
        ensures
            r as int == self.refcount(k@),
    {
        match self.find(k) {
            Some(i) => self.counts[i],
            None => 0,
        }
    }

    /// Merge a chunk into the table and add `add` to its reference count
    /// (saturating). A coordinate not yet resident needs `add >= 1`, since
    /// every entry's count is positive. Other coordinates are untouched.
    pub fn insert_chunk(&mut self, k: ChunkPos, chunk: Chunk, add: u64)
        requires
            old(self).wf(),
            old(self).resident(k@) || add >= 1,
        ensures
            final(self).wf(),
            final(self).resident(k@),
            final(self).refcount(k@) == bump(old(self).refcount(k@), add as int),
            final(self).chunk_at(k@) == chunk,
            final(self).grid(k@) == chunk@,
            forall|k2: (int, int, int)|
                k2 != k@ ==> final(self).resident(k2) == old(self).resident(k2) && final(self).refcount(k2) == old(self).refcount(k2) && (old(self).resident(k2) ==> final(self).chunk_at(k2) == old(self).chunk_at(k2)
                    && final(self).grid(k2) == old(self).grid(k2)),
    {
        match self.find(k) {
            Some(i) => {
                let c = self.counts[i];
                let nc = if c > u64::MAX - add {
                    u64::MAX
                } else {
                    c + add
                };
                self.counts[i] = nc;
                self.grids[i] = chunk;
                proof {
                    assert(self.wf());
                    self.lemma_idx(i as int);
                    assert forall|k2: (int, int, int)| k2 != k@ implies self.resident(k2)
                        == old(self).resident(k2) && self.refcount(k2) == old(self).refcount(
                        k2,
                    ) && (old(self).resident(k2) ==> self.chunk_at(k2) == old(self).chunk_at(k2)
                        && self.grid(k2) == old(self).grid(k2)) by {
                        assert(self.keys@ == old(self).keys@);
                        if old(self).resident(k2) {
                            let j = old(self).idx_of(k2);
                            assert(0 <= j < old(self).keys@.len() && old(self).keys@[j]@ == k2);
                            assert(j != i);
                            self.lemma_idx(j);
                            old(self).lemma_idx(j);
                        }
                    }
                }
            },
            None => {
                let ghost n = self.keys@.len() as int;
                self.keys.push(k);
                self.grids.push(chunk);
                self.counts.push(add);
                proof {
                    assert forall|i: int, j: int|
                        0 <= i < j < self.keys@.len() implies (#[trigger] self.keys@[i])@ != (
                    #[trigger] self.keys@[j])@ by {
                        if j < n {
                        } else {
                            assert(self.keys@[j]@ == k@);
                            assert(self.keys@[i] == old(self).keys@[i]);
                            assert(!old(self).resident(k@));
                        }
                    }
                    assert(self.wf());
                    self.lemma_idx(n);
                    assert(self.refcount(k@) == add as int);
                    assert forall|k2: (int, int, int)| k2 != k@ implies self.resident(k2)
                        == old(self).resident(k2) && self.refcount(k2) == old(self).refcount(
                        k2,
                    ) && (old(self).resident(k2) ==> self.chunk_at(k2) == old(self).chunk_at(k2)
                        && self.grid(k2) == old(self).grid(k2)) by {
                        if old(self).resident(k2) {
                            let j = old(self).idx_of(k2);
                            old(self).lemma_idx(j);
                            assert(self.keys@[j]@ == k2);
                            self.lemma_idx(j);
                        } else {
                            if self.resident(k2) {
                                let j = self.idx_of(k2);
                                assert(0 <= j < self.keys@.len() && self.keys@[j]@ == k2);
                                assert(j == n);
                            }
                        }
                    }
                }
            },
        }
    }

    /// Add `add` holders to an already resident coordinate (saturating).
    pub fn add_refs(&mut self, k: ChunkPos, add: u64)
        requires
            old(self).wf(),
            old(self).resident(k@),
        ensures
            final(self).wf(),
            final(self).resident(k@),
            final(self).refcount(k@) == bump(old(self).refcount(k@), add as int),
            final(self).chunk_at(k@) == old(self).chunk_at(k@),
            final(self).grid(k@) == old(self).grid(k@),
            forall|k2: (int, int, int)|
                k2 != k@ ==> final(self).resident(k2) == old(self).resident(k2) && final(self).refcount(k2) == old(self).refcount(k2) && (old(self).resident(k2) ==> final(self).chunk_at(k2) == old(self).chunk_at(k2)
                    && final(self).grid(k2) == old(self).grid(k2)),
    {
        let i = self.find(k).unwrap();
        let c = self.counts[i];
        let nc = if c > u64::MAX - add {
            u64::MAX
        } else {
            c + add
        };
        self.counts[i] = nc;
        proof {
            assert(self.wf());
            self.lemma_idx(i as int);
            assert forall|k2: (int, int, int)| k2 != k@ implies self.resident(k2) == old(self).resident(k2) && self.refcount(k2) == old(self).refcount(k2) && (old(self).resident(k2) ==> self.chunk_at(k2) == old(self).chunk_at(k2)) by {
                assert(self.keys@ == old(self).keys@);
                if old(self).resident(k2) {
                    let j = old(self).idx_of(k2);
                    assert(0 <= j < old(self).keys@.len() && old(self).keys@[j]@ == k2);
                    assert(j != i);
                    self.lemma_idx(j);
                    old(self).lemma_idx(j);
                }
            }
        }
    }

    /// Lower a coordinate's reference count by one. A coordinate that is
    /// not resident is reported `Stale` and nothing changes — a stale
    /// decrement is recoverable, never a panic. A count of one means the
    /// last holder left: the chunk is evicted. Other coordinates are
    /// untouched.
    pub fn decr(&mut self, k: ChunkPos) -> (r: DecOutcome)
        requires
            old(self).wf(),
        ensures
            final(self).wf(),
            r == DecOutcome::Stale <==> !old(self).resident(k@),
            r == DecOutcome::Kept <==> old(self).refcount(k@) > 1,
            r == DecOutcome::Evicted <==> old(self).refcount(k@) == 1,
            old(self).refcount(k@) > 1 ==> final(self).resident(k@) && final(self).refcount(k@)
                == old(self).refcount(k@) - 1 && final(self).chunk_at(k@) == old(self).chunk_at(k@)
                && final(self).grid(k@) == old(self).grid(k@),
            old(self).refcount(k@) <= 1 ==> !final(self).resident(k@) && final(self).refcount(k@)
                == 0,
            forall|k2: (int, int, int)|
                k2 != k@ ==> final(self).resident(k2) == old(self).resident(k2) && final(self).refcount(k2) == old(self).refcount(k2) && (old(self).resident(k2) ==> final(self).chunk_at(k2) == old(self).chunk_at(k2)
                    && final(self).grid(k2) == old(self).grid(k2)),
    {
        proof {
            old(self).lemma_refcount_invariant(k@);
        }
        match self.find(k) {
            None => DecOutcome::Stale,
            Some(i) => {
                let c = self.counts[i];
                if c > 1 {
                    self.counts[i] = c - 1;
                    proof {
                        assert(self.wf());
                        self.lemma_idx(i as int);
                        assert forall|k2: (int, int, int)| k2 != k@ implies self.resident(
                            k2,
                        ) == old(self).resident(k2) && self.refcount(k2) == old(self).refcount(k2) && (old(self).resident(k2) ==> self.chunk_at(k2)
                            == old(self).chunk_at(k2)) by {
                            assert(self.keys@ == old(self).keys@);
                            if old(self).resident(k2) {
                                let j = old(self).idx_of(k2);
                                assert(0 <= j < old(self).keys@.len() && old(self).keys@[j]@ == k2);
                                assert(j != i);
                                self.lemma_idx(j);
                                old(self).lemma_idx(j);
                            }
                        }
                    }
                    DecOutcome::Kept
                } else {
                    let ghost n = self.keys@.len() as int;
                    self.keys.swap_remove(i);
                    self.grids.swap_remove(i);
                    self.counts.swap_remove(i);
                    proof {
                        assert(self.keys@.len() == n - 1);
                        assert forall|a: int, b: int|
                            0 <= a < b < self.keys@.len() implies (#[trigger] self.keys@[a])@ != (
                        #[trigger] self.keys@[b])@ by {
                            let oa: int = if a == i {
                                n - 1
                            } else {
                                a
                            };
                            let ob: int = if b == i {
                                n - 1
                            } else {
                                b
                            };
                            assert(self.keys@[a] == old(self).keys@[oa]);
                            assert(self.keys@[b] == old(self).keys@[ob]);
                        }
                        assert(self.wf());
                        assert(!self.resident(k@)) by {
                            if self.resident(k@) {
                                let j = self.idx_of(k@);
                                assert(0 <= j < self.keys@.len() && self.keys@[j]@ == k@);
                                let oj: int = if j == i {
                                    n - 1
                                } else {
                                    j
                                };
                                assert(self.keys@[j] == old(self).keys@[oj]);
                                assert(oj != i);
                                assert(old(self).keys@[oj]@ != old(self).keys@[i as int]@);
                            }
                        }
                        assert forall|k2: (int, int, int)| k2 != k@ implies self.resident(
                            k2,
                        ) == old(self).resident(k2) && self.refcount(k2) == old(self).refcount(k2) && (old(self).resident(k2) ==> self.chunk_at(k2)
                            == old(self).chunk_at(k2)) by {
                            if old(self).resident(k2) {
                                let j = old(self).idx_of(k2);
                                old(self).lemma_idx(j);
                                assert(j != i);
                                let nj: int = if j == n - 1 {
                                    i as int
                                } else {
                                    j
                                };
                                if j == n - 1 {
                                    assert(i < n - 1);
                                }
                                assert(nj < self.keys@.len());
                                assert(self.keys@[nj] == old(self).keys@[j]);
                                self.lemma_idx(nj);
                            } else {
                                if self.resident(k2) {
                                    let j = self.idx_of(k2);
                                    assert(0 <= j < self.keys@.len() && self.keys@[j]@ == k2);
                                    let oj: int = if j == i {
                                        n - 1
                                    } else {
                                        j
                                    };
                                    assert(self.keys@[j] == old(self).keys@[oj]);
                                    assert(old(self).resident(k2));
                                }
                            }
                        }
                    }
                    DecOutcome::Evicted
                }
            },
        }
    }

    /// Replace one voxel of a resident chunk, if the coordinate is resident
    /// and the voxel is in bounds; report whether it was. Reference counts
    /// and all other coordinates are untouched.
    pub fn set_voxel(&mut self, k: ChunkPos, x: usize, y: usize, z: usize, m: Material) -> (r:
        bool)
        requires
            old(self).wf(),
        ensures
            final(self).wf(),
            r == (old(self).resident(k@) && Chunk::can_set(
                old(self).grid(k@),
                x as int,
                y as int,
                z as int,
            )),
            forall|k2: (int, int, int)|
                final(self).resident(k2) == old(self).resident(k2) && final(self).refcount(k2)
                    == old(self).refcount(k2),
            forall|k2: (int, int, int)|
                k2 != k@ && old(self).resident(k2) ==> final(self).grid(k2) == old(self).grid(k2),
            r ==> final(self).grid(k@) == old(self).grid(k@).update(
                x as int,
                old(self).grid(k@)[x as int].update(
                    y as int,
                    old(self).grid(k@)[x as int][y as int].update(z as int, m),
                ),
            ),
            !r && old(self).resident(k@) ==> final(self).grid(k@) == old(self).grid(k@),
    {
        match self.find(k) {
            None => false,
            Some(i) => {
                let ch: &mut Chunk = &mut self.grids[i];
                let r = ch.try_set(x, y, z, m);
                proof {
                    assert(self.keys@ == old(self).keys@);
                    assert(self.counts@ == old(self).counts@);
                    assert(self.wf());
                    self.lemma_idx(i as int);
                    assert forall|k2: (int, int, int)|
                        final(self).resident(k2) == old(self).resident(k2) && self.refcount(k2)
                            == old(self).refcount(k2) && (k2 != k@ && old(self).resident(k2)
                            ==> self.grid(k2) == old(self).grid(k2)) by {
                        if old(self).resident(k2) {
                            let j = old(self).idx_of(k2);
                            old(self).lemma_idx(j);
                            self.lemma_idx(j);
                        } else {
                            if self.resident(k2) {
                                let j = self.idx_of(k2);
                                assert(old(self).keys@[j]@ == k2);
                            }
                        }
                    }
                }
                r
            },
        }
    }

    /// The resident chunk at a coordinate, if any.
    pub fn get(&self, k: ChunkPos) -> (r: Option<&Chunk>)
        requires
            self.wf(),
        ensures
            match r {
                Some(c) => self.resident(k@) && *c == self.chunk_at(k@) && c@ == self.grid(k@),
                None => !self.resident(k@),
            },
    {
        match self.find(k) {
            Some(i) => Some(&self.grids[i]),
            None => None,
        }
    }
}

} // verus!
