//! Authority scenarios: shared reference counts across viewpoints, stale
//! decrements, unmatched deliveries, block edits and the eviction/reload
//! round trip.

use vox::chunk::Chunk;
use vox::coords::{world_to_chunk, ChunkPos, WorldPos};
use vox::material::Material;
use vox::mesh::Greedy;
use vox::server::{chunks_around, Server};

fn fulfil(to_fetch: &[ChunkPos], fill: Material) -> Vec<(ChunkPos, Chunk)> {
    to_fetch
        .iter()
        .map(|c| (*c, Chunk::new(2, fill)))
        .collect()
}

#[test]
fn shared_chunk_is_counted_once_per_viewpoint() {
    // Two viewpoints whose visibility balls overlap on the same chunk.
    let mut server = Server::new(1);
    let pos = WorldPos::new(16, 16, 16);
    let k = world_to_chunk(pos);

    let jr1 = server.join(1, pos).unwrap();
    assert!(!jr1.to_fetch.is_empty());
    assert_eq!(jr1.deliver.len(), 0);
    assert_eq!(server.refcount_of(k), 0);

    // The worker answers the exact order; the requester is viewpoint 1.
    let batch = fulfil(&jr1.to_fetch, Material::Stone);
    let reqs = server.deliver(&batch);
    assert_eq!(reqs, vec![1]);
    assert!(server.is_resident(k));
    assert_eq!(server.refcount_of(k), 1);

    // The second viewpoint joins at the same spot: everything is resident,
    // delivered at once, and the shared chunk is counted twice.
    let jr2 = server.join(2, pos).unwrap();
    assert!(jr2.to_fetch.is_empty());
    assert!(jr2.deliver.iter().any(|(c, _)| *c == k));
    assert_eq!(server.refcount_of(k), 2);

    // One viewpoint leaves: count drops to one, chunk stays resident.
    let stale = server.leave(2).unwrap();
    assert!(stale.is_empty());
    assert_eq!(server.refcount_of(k), 1);
    assert!(server.is_resident(k));
}

#[test]
fn duplicate_identity_is_rejected() {
    let mut server = Server::new(1);
    let pos = WorldPos::new(0, 0, 0);
    assert!(server.join(7, pos).is_some());
    assert!(server.join(7, pos).is_none());
    assert!(server.move_player(99, pos).is_none());
    assert!(server.leave(99).is_none());
}

#[test]
fn leaving_before_delivery_reports_stale_decrements() {
    // The viewpoint leaves while its chunks are still on order: nothing is
    // resident, so every decrement is stale — reported, never fatal.
    let mut server = Server::new(1);
    let pos = WorldPos::new(16, 16, 16);
    let jr = server.join(1, pos).unwrap();
    let ordered = jr.to_fetch.len();
    assert!(ordered > 0);
    let stale = server.leave(1).unwrap();
    assert_eq!(stale.len(), ordered);
}

#[test]
fn unmatched_delivery_is_merged_and_held() {
    // A batch matching no order still enters the canonical table, held once,
    // so residency and a positive count stay in step.
    let mut server = Server::new(1);
    let k = ChunkPos::new(5, 5, 5);
    let batch = vec![(k, Chunk::new(2, Material::Dirt))];
    let reqs = server.deliver(&batch);
    assert!(reqs.is_empty());
    assert!(server.is_resident(k));
    assert_eq!(server.refcount_of(k), 1);
}

#[test]
fn set_block_edits_canonical_state() {
    let mut server = Server::new(0);
    let pos = WorldPos::new(65, 65, 65);
    let k = world_to_chunk(pos);
    let jr = server.join(1, pos).unwrap();
    let batch = fulfil(&jr.to_fetch, Material::Stone);
    server.deliver(&batch);
    assert!(server.is_resident(k));

    // The chunk spans 32 world units; block (65, 65, 65) sits at (1, 1, 1)
    // of chunk (2, 2, 2) — but the canonical chunks here are 2 wide, so the
    // edit lands in bounds only if the block index fits the stored grid.
    let w = WorldPos::new(65, 65, 65);
    let applied = server.set_block(w, Material::Glass);
    assert!(applied);
    let c = server.get_chunk(k).unwrap();
    assert_eq!(c.get(1, 1, 1), Material::Glass);

    // An edit outside any resident chunk is refused, not fatal.
    let far = WorldPos::new(-4000, -4000, -4000);
    assert!(!server.set_block(far, Material::Glass));
}

#[test]
fn eviction_and_reload_mesh_identically() {
    // Unloading a chunk to count zero and re-requesting it with the same
    // contents yields identical geometry.
    let mut server = Server::new(0);
    let home = WorldPos::new(16, 16, 16);
    let k = world_to_chunk(home);
    let jr = server.join(1, home).unwrap();
    assert_eq!(jr.to_fetch, vec![k]);

    let mut chunk = Chunk::new(2, Material::Air);
    chunk.set(0, 0, 0, Material::Stone);
    chunk.set(1, 1, 1, Material::Grass);
    let batch = vec![(k, chunk)];
    server.deliver(&batch);

    let nbrs: Vec<Chunk> = (0..6).map(|_| Chunk::new(2, Material::Air)).collect();
    let first = Greedy.mesh(server.get_chunk(k).unwrap(), &nbrs, false);

    // Move far away: the chunk's only holder drops it and it is evicted.
    let away = WorldPos::new(16 + 32 * 8, 16, 16);
    let mr = server.move_player(1, away).unwrap();
    assert!(!server.is_resident(k));
    assert_eq!(server.refcount_of(k), 0);
    assert!(!mr.to_fetch.is_empty());

    // Move back: the chunk is ordered again and delivered with the same
    // contents; the mesh is identical.
    let mr2 = server.move_player(1, home).unwrap();
    assert!(mr2.to_fetch.contains(&k));
    let mut chunk2 = Chunk::new(2, Material::Air);
    chunk2.set(0, 0, 0, Material::Stone);
    chunk2.set(1, 1, 1, Material::Grass);
    let batch2: Vec<(ChunkPos, Chunk)> = mr2
        .to_fetch
        .iter()
        .map(|c| {
            if *c == k {
                (*c, chunk2.duplicate())
            } else {
                (*c, Chunk::new(2, Material::Air))
            }
        })
        .collect();
    server.deliver(&batch2);
    let second = Greedy.mesh(server.get_chunk(k).unwrap(), &nbrs, false);
    assert_eq!(first, second);
    assert!(!first.is_empty());
}

#[test]
fn visibility_ball_is_euclidean() {
    let center = ChunkPos::new(0, 0, 0);
    let ball = chunks_around(center, 2);
    // Euclidean, not Chebyshev: the cube corner (2, 2, 2) lies outside
    // radius 2, the axis point (2, 0, 0) inside.
    assert!(ball.contains(&ChunkPos::new(2, 0, 0)));
    assert!(!ball.contains(&ChunkPos::new(2, 2, 2)));
    assert!(!ball.contains(&ChunkPos::new(2, 1, 1)));
    assert!(ball.contains(&ChunkPos::new(1, 1, 1)));
    // r = 2: members are offsets with x^2+y^2+z^2 <= 4.
    assert_eq!(ball.len(), 33);
}
