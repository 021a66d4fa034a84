//! Tests of the free-standing chunk container, payload access, and time
//! stamps.

use grid_world::blocks::BlockID;
use grid_world::chunk_data::{ChunkData, ChunkError};
use grid_world::scheduler::Time;
use grid_world::store::TerrainDiskStorage;
use grid_world::time::WorldTime;

#[test]
fn blank_chunk_is_zeroed() {
    let chunk = ChunkData::create(4, -2, 9);
    assert_eq!(chunk.get_index(), (4, -2, 9));
    let data = chunk.get_data();
    assert_eq!(data.len(), 32768);
    for i in 0..data.len() {
        assert_eq!(data[i], 0);
    }
}

#[test]
fn chunk_data_is_writable_in_place() {
    let mut chunk = ChunkData::create(0, 0, 0);
    chunk.get_data_mut()[42] = 7;
    assert_eq!(chunk.get_data()[42], 7);
    assert_eq!(chunk.get_data()[41], 0);
}

#[test]
fn payload_exposes_its_blocks() {
    let mut store = TerrainDiskStorage::initialize(Vec::new(), Vec::new());
    let (_created, mut payload) = store.get_or_create_chunk(1, 2, 3).unwrap();
    assert_eq!(payload.get_index(), (1, 2, 3));
    assert_eq!(payload.get_address_in_file(), 0);
    assert_eq!(payload.get_data().len(), 4096);

    payload.get_data_mut()[9] = 500;
    assert_eq!(payload.get_data()[9], 500);
}

#[test]
fn time_stamps_compare_by_value() {
    assert_eq!(Time::from_ms(125), Time::from_ms(125));
    assert_ne!(Time::from_ms(125), Time::from_ms(126));
    assert_eq!(WorldTime::from_ms(9000).as_millis(), 9000);
    assert_eq!(WorldTime::from_ms(0).as_millis(), 0);
}

#[test]
fn time_arithmetic_is_exact() {
    assert_eq!(Time::from_ms(100).add_ms(25), Time::from_ms(125));
    assert_eq!(Time::from_ms(100).sub_ms(25), Time::from_ms(75));
    assert_eq!(WorldTime::from_ms(100).add_ms(25).as_millis(), 125);
    assert_eq!(WorldTime::from_ms(100).sub_ms(100).as_millis(), 0);
    assert_eq!(WorldTime::from_ms(500).diff_ms(WorldTime::from_ms(120)), 380);
}

#[test]
fn single_blocks_read_and_write_by_local_coordinate() {
    let mut chunk = ChunkData::create(0, 0, 0);
    assert_eq!(chunk.get_single_block_local((3, 2, 1)), None);
    chunk.set_single_block_local((3, 2, 1), Some(BlockID::new(9)));
    assert_eq!(chunk.get_single_block_local((3, 2, 1)), Some(BlockID::new(9)));
    // Out-of-range coordinate bits are chopped off: (35, 2, 1) is (3, 2, 1).
    assert_eq!(chunk.get_single_block_local((35, 2, 1)), Some(BlockID::new(9)));
    assert_eq!(chunk.direct_access(3 + 2 * 32 + 1 * 1024), Ok(9));
    chunk.set_single_block_local((3, 2, 1), None);
    assert_eq!(chunk.get_single_block_local((3, 2, 1)), None);
}

#[test]
fn out_of_range_access_is_rejected() {
    let mut chunk = ChunkData::create(0, 0, 0);
    assert_eq!(chunk.direct_access(32767), Ok(0));
    assert_eq!(chunk.direct_access(32768), Err(ChunkError::OutOfRange));
    assert_eq!(chunk.direct_access_mut(12, 99), Ok(()));
    assert_eq!(chunk.direct_access(12), Ok(99));
    assert_eq!(chunk.direct_access_mut(40000, 1), Err(ChunkError::OutOfRange));
}
