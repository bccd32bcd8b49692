//! Streaming-worker scenarios: movement coalescing, the neighbor gate before
//! meshing, queue sorting and pruning, and the report throttle.

use vox::chunk::Chunk;
use vox::client_aux::{coalesce_messages, should_send_move, Streamer};
use vox::coords::{neighbors, ChunkPos, WorldPos};
use vox::material::Material;
use vox::messages::Message;

#[test]
fn rapid_moves_coalesce_to_the_last_position() {
    // Three rapid movement updates before a drain produce exactly one
    // outbound report carrying only the last position.
    let p1 = WorldPos::new(1, 0, 0);
    let p2 = WorldPos::new(2, 0, 0);
    let p3 = WorldPos::new(3, 0, 0);
    let msgs = vec![
        Message::PlayerMove(p1),
        Message::PlayerMove(p2),
        Message::PlayerMove(p3),
    ];
    let c = coalesce_messages(&msgs);
    assert_eq!(c.move_to, Some(p3));
    assert!(c.blocks.is_empty());
    assert!(!c.leave);
    assert!(!c.protocol_error);
}

#[test]
fn coalescing_keeps_block_edits_in_order_and_stops_at_leave() {
    let w1 = WorldPos::new(1, 1, 1);
    let w2 = WorldPos::new(2, 2, 2);
    let msgs = vec![
        Message::SetBlock(w1, Material::Stone),
        Message::PlayerMove(WorldPos::new(9, 9, 9)),
        Message::SetBlock(w2, Material::Glass),
        Message::Leave,
        Message::PlayerMove(WorldPos::new(7, 7, 7)),
    ];
    let c = coalesce_messages(&msgs);
    assert!(c.leave);
    assert_eq!(c.blocks, vec![(w1, Material::Stone), (w2, Material::Glass)]);
    assert_eq!(c.move_to, Some(WorldPos::new(9, 9, 9)));
    assert!(!c.protocol_error);
}

#[test]
fn unexpected_variant_is_a_protocol_error() {
    let msgs = vec![Message::Chunks(Vec::new())];
    let c = coalesce_messages(&msgs);
    assert!(c.protocol_error);
    assert!(!c.leave);
}

#[test]
fn meshing_waits_for_all_six_neighbors() {
    let mut w = Streamer::new(WorldPos::new(0, 0, 0), 8, 10);
    let center = ChunkPos::new(0, 0, 0);

    // Deliver only the center: nothing can be meshed yet; the coordinate is
    // retried, not dropped.
    w.merge_delivery(vec![(center, Chunk::new(2, Material::Stone))]);
    assert!(w.resort_due());
    let batch = w.select_batch();
    assert!(batch.is_empty());
    assert_eq!(w.pending_len(), 1);

    // Deliver the six neighbors: now the center meshes and leaves the queue;
    // the neighbors stay queued (their own neighbors are missing).
    let nb: Vec<(ChunkPos, Chunk)> = neighbors(center)
        .into_iter()
        .map(|c| (c, Chunk::new(2, Material::Air)))
        .collect();
    w.merge_delivery(nb);
    assert_eq!(w.pending_len(), 7);
    let batch = w.select_batch();
    assert_eq!(batch.len(), 1);
    assert_eq!(batch[0].pos, center);
    // A filled 2-cube against air neighbors: six merged quads.
    assert_eq!(batch[0].opaque.len(), 36);
    assert!(batch[0].transparent.is_empty());
    assert_eq!(w.pending_len(), 6);
    for i in 0..w.pending_len() {
        assert_ne!(w.pending_at(i), center);
    }
}

#[test]
fn resort_orders_by_distance_and_prunes_far_entries() {
    // Viewpoint at the origin, draw radius 2 chunks.
    let mut w = Streamer::new(WorldPos::new(0, 0, 0), 2, 10);
    let near = ChunkPos::new(0, 0, 0);
    let mid = ChunkPos::new(1, 0, 0);
    let far = ChunkPos::new(50, 0, 0);
    w.merge_delivery(vec![
        (far, Chunk::new(2, Material::Stone)),
        (mid, Chunk::new(2, Material::Stone)),
        (near, Chunk::new(2, Material::Stone)),
    ]);
    assert_eq!(w.pending_len(), 3);
    let pruned = w.resort();
    // The far coordinate is outside the draw distance: dropped from the
    // queue and forgotten from the cache.
    assert_eq!(pruned, vec![far]);
    assert!(!w.is_cached(far));
    assert!(w.is_cached(near));
    // The rest is sorted closest-first.
    assert_eq!(w.pending_len(), 2);
    assert_eq!(w.pending_at(0), near);
    assert_eq!(w.pending_at(1), mid);
    assert!(!w.resort_due());
}

#[test]
fn movement_reports_are_throttled() {
    assert!(!should_send_move(0));
    assert!(!should_send_move(50));
    assert!(should_send_move(51));
}
