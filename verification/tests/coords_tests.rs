//! Coordinate-space conversions: floor semantics on negatives, in-chunk
//! indices, regions and the neighbor order.

use vox::coords::{
    chunk_dist_sq_exec, chunk_to_region, chunk_to_world, in_chunk, in_region, neighbors,
    region_to_chunk, world_to_chunk, ChunkPos, WorldPos,
};

#[test]
fn world_to_chunk_floors_toward_negative_infinity() {
    assert_eq!(world_to_chunk(WorldPos::new(0, 31, 32)), ChunkPos::new(0, 0, 1));
    assert_eq!(world_to_chunk(WorldPos::new(-1, -32, -33)), ChunkPos::new(-1, -1, -2));
    assert_eq!(world_to_chunk(WorldPos::new(63, -5, 100)), ChunkPos::new(1, -1, 3));
}

#[test]
fn in_chunk_is_always_in_range() {
    assert_eq!(in_chunk(WorldPos::new(0, 31, 32)), (0, 31, 0));
    assert_eq!(in_chunk(WorldPos::new(-1, -32, -33)), (31, 0, 31));
}

#[test]
fn chunk_center_lands_in_its_own_chunk() {
    for c in [ChunkPos::new(0, 0, 0), ChunkPos::new(-3, 7, 1)] {
        let w = chunk_to_world(c);
        assert_eq!(world_to_chunk(w), c);
    }
}

#[test]
fn regions_are_four_chunks_wide() {
    assert_eq!(chunk_to_region(ChunkPos::new(7, -1, 4)), ChunkPos::new(1, -1, 1));
    assert_eq!(region_to_chunk(ChunkPos::new(1, -1, 1)), ChunkPos::new(4, -4, 4));
    assert_eq!(in_region(ChunkPos::new(0, 0, 0)), 0);
    assert_eq!(in_region(ChunkPos::new(1, 2, 3)), 1 + 2 * 4 + 3 * 16);
    assert_eq!(in_region(ChunkPos::new(-1, 0, 0)), 3);
}

#[test]
fn neighbors_come_in_the_fixed_axis_order() {
    let n = neighbors(ChunkPos::new(1, 2, 3));
    assert_eq!(
        n,
        vec![
            ChunkPos::new(0, 2, 3),
            ChunkPos::new(2, 2, 3),
            ChunkPos::new(1, 1, 3),
            ChunkPos::new(1, 3, 3),
            ChunkPos::new(1, 2, 2),
            ChunkPos::new(1, 2, 4),
        ]
    );
}

#[test]
fn chunk_distance_is_squared_euclidean() {
    assert_eq!(chunk_dist_sq_exec(ChunkPos::new(0, 0, 0), ChunkPos::new(1, 2, 2)), 9);
    assert_eq!(chunk_dist_sq_exec(ChunkPos::new(-1, 0, 0), ChunkPos::new(1, 0, 0)), 4);
}
