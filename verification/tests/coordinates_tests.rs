//! Tests of the coordinate conversions.

use grid_world::coordinates::{
    chunk_index, chunk_to_block_coordinate, to_global_block_coordinate,
    to_local_block_coordinate, validate_local,
};

#[test]
fn local_coordinates_are_masked_to_the_chunk() {
    assert_eq!(validate_local((0, 31, 32)), (0, 31, 0));
    assert_eq!(validate_local((33, 255, 64)), (1, 31, 0));
}

#[test]
fn global_blocks_split_into_chunk_and_local_parts() {
    assert_eq!(chunk_index((0, 31, 32)), (0, 0, 1));
    assert_eq!(chunk_index((-1, -32, -33)), (-1, -1, -2));
    assert_eq!(to_local_block_coordinate((0, 31, 32)), (0, 31, 0));
    assert_eq!(to_local_block_coordinate((-1, -32, -33)), (31, 0, 31));
}

#[test]
fn chunk_and_local_parts_rebuild_the_global_block() {
    assert_eq!(chunk_to_block_coordinate((1, -1, 0)), (32, -32, 0));
    for g in [-70i64, -33, -32, -1, 0, 1, 31, 32, 64, 1000] {
        let global = (g, g, g);
        let chunk = chunk_index(global);
        let local = to_local_block_coordinate(global);
        assert_eq!(to_global_block_coordinate(local, chunk), global);
    }
}
