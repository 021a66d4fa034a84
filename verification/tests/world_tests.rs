//! Tests of the chunk store over fresh file images.

use grid_world::store::{ChunkKey, StorageError, TerrainDiskStorage};

#[test]
fn insert_single_chunk_new_file() {
    let mut index = TerrainDiskStorage::initialize(Vec::new(), Vec::new());
    index.get_or_create_chunk(0, 0, 0).unwrap();
    index.get_chunk(0, 0, 0).unwrap().unwrap();

    // Should be 6 nodes: the root plus one per remaining digit of the chain.
    assert_eq!(index.get_index_file_length(), 12288);
}

#[test]
fn get_chunk_that_does_not_exist() {
    let index = TerrainDiskStorage::initialize(Vec::new(), Vec::new());
    let chunk = index.get_chunk(0, 0, 0).unwrap();

    assert!(chunk.is_none());
}

#[test]
fn save_chunk() {
    let mut index = TerrainDiskStorage::initialize(Vec::new(), Vec::new());
    let (_created, chunk) = index.get_or_create_chunk(0, 0, 0).unwrap();
    index.save_chunk(&chunk).unwrap();
}

#[test]
fn world_chunk_keys() {
    // We test that every bit maps correctly.

    assert_eq!(TerrainDiskStorage::create_chunk_key(0x0000, 0x0000, 0x0000), ChunkKey(0x0000000000000000));

    assert_eq!(TerrainDiskStorage::create_chunk_key(0x8000u16 as i16, 0x0000, 0x0000), ChunkKey(0x0000800000000000));
    assert_eq!(TerrainDiskStorage::create_chunk_key(0x0000, 0x8000u16 as i16, 0x0000), ChunkKey(0x0000400000000000));
    assert_eq!(TerrainDiskStorage::create_chunk_key(0x0000, 0x0000, 0x8000u16 as i16), ChunkKey(0x0000200000000000));

    assert_eq!(TerrainDiskStorage::create_chunk_key(0x4000, 0x0000, 0x0000), ChunkKey(0x0000100000000000));
    assert_eq!(TerrainDiskStorage::create_chunk_key(0x0000, 0x4000, 0x0000), ChunkKey(0x0000080000000000));
    assert_eq!(TerrainDiskStorage::create_chunk_key(0x0000, 0x0000, 0x4000), ChunkKey(0x0000040000000000));

    assert_eq!(TerrainDiskStorage::create_chunk_key(0x2000, 0x0000, 0x0000), ChunkKey(0x0000020000000000));
    assert_eq!(TerrainDiskStorage::create_chunk_key(0x0000, 0x2000, 0x0000), ChunkKey(0x0000010000000000));
    assert_eq!(TerrainDiskStorage::create_chunk_key(0x0000, 0x0000, 0x2000), ChunkKey(0x0000008000000000));

    assert_eq!(TerrainDiskStorage::create_chunk_key(0x1000, 0x0000, 0x0000), ChunkKey(0x0000004000000000));
    assert_eq!(TerrainDiskStorage::create_chunk_key(0x0000, 0x1000, 0x0000), ChunkKey(0x0000002000000000));
    assert_eq!(TerrainDiskStorage::create_chunk_key(0x0000, 0x0000, 0x1000), ChunkKey(0x0000001000000000));

    assert_eq!(TerrainDiskStorage::create_chunk_key(0x0800, 0x0000, 0x0000), ChunkKey(0x0000000800000000));
    assert_eq!(TerrainDiskStorage::create_chunk_key(0x0000, 0x0800, 0x0000), ChunkKey(0x0000000400000000));
    assert_eq!(TerrainDiskStorage::create_chunk_key(0x0000, 0x0000, 0x0800), ChunkKey(0x0000000200000000));

    assert_eq!(TerrainDiskStorage::create_chunk_key(0x0400, 0x0000, 0x0000), ChunkKey(0x0000000100000000));
    assert_eq!(TerrainDiskStorage::create_chunk_key(0x0000, 0x0400, 0x0000), ChunkKey(0x0000000080000000));
    assert_eq!(TerrainDiskStorage::create_chunk_key(0x0000, 0x0000, 0x0400), ChunkKey(0x0000000040000000));

    assert_eq!(TerrainDiskStorage::create_chunk_key(0x0200, 0x0000, 0x0000), ChunkKey(0x0000000020000000));
    assert_eq!(TerrainDiskStorage::create_chunk_key(0x0000, 0x0200, 0x0000), ChunkKey(0x0000000010000000));
    assert_eq!(TerrainDiskStorage::create_chunk_key(0x0000, 0x0000, 0x0200), ChunkKey(0x0000000008000000));

    assert_eq!(TerrainDiskStorage::create_chunk_key(0x0100, 0x0000, 0x0000), ChunkKey(0x0000000004000000));
    assert_eq!(TerrainDiskStorage::create_chunk_key(0x0000, 0x0100, 0x0000), ChunkKey(0x0000000002000000));
    assert_eq!(TerrainDiskStorage::create_chunk_key(0x0000, 0x0000, 0x0100), ChunkKey(0x0000000001000000));

    assert_eq!(TerrainDiskStorage::create_chunk_key(0x0080, 0x0000, 0x0000), ChunkKey(0x0000000000800000));
    assert_eq!(TerrainDiskStorage::create_chunk_key(0x0000, 0x0080, 0x0000), ChunkKey(0x0000000000400000));
    assert_eq!(TerrainDiskStorage::create_chunk_key(0x0000, 0x0000, 0x0080), ChunkKey(0x0000000000200000));

    assert_eq!(TerrainDiskStorage::create_chunk_key(0x0040, 0x0000, 0x0000), ChunkKey(0x0000000000100000));
    assert_eq!(TerrainDiskStorage::create_chunk_key(0x0000, 0x0040, 0x0000), ChunkKey(0x0000000000080000));
    assert_eq!(TerrainDiskStorage::create_chunk_key(0x0000, 0x0000, 0x0040), ChunkKey(0x0000000000040000));

    assert_eq!(TerrainDiskStorage::create_chunk_key(0x0020, 0x0000, 0x0000), ChunkKey(0x0000000000020000));
    assert_eq!(TerrainDiskStorage::create_chunk_key(0x0000, 0x0020, 0x0000), ChunkKey(0x0000000000010000));
    assert_eq!(TerrainDiskStorage::create_chunk_key(0x0000, 0x0000, 0x0020), ChunkKey(0x0000000000008000));

    assert_eq!(TerrainDiskStorage::create_chunk_key(0x0010, 0x0000, 0x0000), ChunkKey(0x0000000000004000));
    assert_eq!(TerrainDiskStorage::create_chunk_key(0x0000, 0x0010, 0x0000), ChunkKey(0x0000000000002000));
    assert_eq!(TerrainDiskStorage::create_chunk_key(0x0000, 0x0000, 0x0010), ChunkKey(0x0000000000001000));

    assert_eq!(TerrainDiskStorage::create_chunk_key(0x0008, 0x0000, 0x0000), ChunkKey(0x0000000000000800));
    assert_eq!(TerrainDiskStorage::create_chunk_key(0x0000, 0x0008, 0x0000), ChunkKey(0x0000000000000400));
    assert_eq!(TerrainDiskStorage::create_chunk_key(0x0000, 0x0000, 0x0008), ChunkKey(0x0000000000000200));

    assert_eq!(TerrainDiskStorage::create_chunk_key(0x0004, 0x0000, 0x0000), ChunkKey(0x0000000000000100));
    assert_eq!(TerrainDiskStorage::create_chunk_key(0x0000, 0x0004, 0x0000), ChunkKey(0x0000000000000080));
    assert_eq!(TerrainDiskStorage::create_chunk_key(0x0000, 0x0000, 0x0004), ChunkKey(0x0000000000000040));

    assert_eq!(TerrainDiskStorage::create_chunk_key(0x0002, 0x0000, 0x0000), ChunkKey(0x0000000000000020));
    assert_eq!(TerrainDiskStorage::create_chunk_key(0x0000, 0x0002, 0x0000), ChunkKey(0x0000000000000010));
    assert_eq!(TerrainDiskStorage::create_chunk_key(0x0000, 0x0000, 0x0002), ChunkKey(0x0000000000000008));

    assert_eq!(TerrainDiskStorage::create_chunk_key(0x0001, 0x0000, 0x0000), ChunkKey(0x0000000000000004));
    assert_eq!(TerrainDiskStorage::create_chunk_key(0x0000, 0x0001, 0x0000), ChunkKey(0x0000000000000002));
    assert_eq!(TerrainDiskStorage::create_chunk_key(0x0000, 0x0000, 0x0001), ChunkKey(0x0000000000000001));
}

#[test]
fn create_twice_reuses_the_chunk() {
    let mut index = TerrainDiskStorage::initialize(Vec::new(), Vec::new());
    let (created1, chunk1) = index.get_or_create_chunk(3, -4, 5).unwrap();
    let len_after_first = index.get_index_file_length();
    let (created2, chunk2) = index.get_or_create_chunk(3, -4, 5).unwrap();

    assert!(created1);
    assert!(!created2);
    assert_eq!(chunk1.get_address_in_file(), chunk2.get_address_in_file());
    assert_eq!(index.get_index_file_length(), len_after_first);
}

#[test]
fn fresh_store_is_empty_and_creation_is_local() {
    let mut index = TerrainDiskStorage::initialize(Vec::new(), Vec::new());
    assert!(index.get_chunk(0, 0, 0).unwrap().is_none());
    assert!(index.get_chunk(1, 0, 0).unwrap().is_none());
    assert!(index.get_chunk(-1, 2, 3).unwrap().is_none());

    index.get_or_create_chunk(0, 0, 0).unwrap();

    assert!(index.get_chunk(0, 0, 0).unwrap().is_some());
    assert!(index.get_chunk(1, 0, 0).unwrap().is_none());
    assert!(index.get_chunk(-1, 0, 0).unwrap().is_none());
    assert!(index.get_chunk(0, 1, 0).unwrap().is_none());
    assert!(index.get_chunk(0, -1, 0).unwrap().is_none());
    assert!(index.get_chunk(0, 0, 1).unwrap().is_none());
    assert!(index.get_chunk(0, 0, -1).unwrap().is_none());
}

#[test]
fn single_chunk_round_trip_through_reopen() {
    // Initialize an empty store and create the chunk at the origin.
    let mut index = TerrainDiskStorage::initialize(Vec::new(), Vec::new());
    let (_created, mut chunk) = index.get_or_create_chunk(0, 0, 0).unwrap();

    // The index grew by the minimal number of nodes the digit chain needs.
    assert_eq!(index.get_index_file_length(), 6 * 2048);

    // Write block value 7 at local index 0 and save.
    chunk.get_data_mut()[0] = 7;
    index.save_chunk(&chunk).unwrap();
    index.flush_index();

    // Reopen the store from the same images.
    let saved_index = index.index_image().clone();
    let saved_chunks = index.chunk_image().clone();
    let reopened = TerrainDiskStorage::initialize(saved_index, saved_chunks);

    let loaded = reopened.get_chunk(0, 0, 0).unwrap().unwrap();
    let data = loaded.get_data();
    assert_eq!(data[0], 7);
    for i in 1..data.len() {
        assert_eq!(data[i], 0);
    }
}

#[test]
fn saved_blocks_read_back_byte_identical() {
    let mut index = TerrainDiskStorage::initialize(Vec::new(), Vec::new());
    let (_created, mut chunk) = index.get_or_create_chunk(-7, 11, 100).unwrap();
    {
        let data = chunk.get_data_mut();
        for i in 0..data.len() {
            data[i] = (i as u16).wrapping_mul(31).wrapping_add(5);
        }
    }
    index.save_chunk(&chunk).unwrap();

    let reopened = TerrainDiskStorage::initialize(
        index.index_image().clone(),
        index.chunk_image().clone(),
    );
    let loaded = reopened.get_chunk(-7, 11, 100).unwrap().unwrap();
    assert_eq!(loaded.get_data(), chunk.get_data());
}

#[test]
fn range_visits_the_whole_box_once() {
    let mut index = TerrainDiskStorage::initialize(Vec::new(), Vec::new());
    let chunks = index.get_chunks_in_range((-1, -1, -1), (1, 1, 1)).unwrap();
    assert_eq!(chunks.len(), 27);

    // Every coordinate of the box appears, in x-fastest, then z, then y order.
    let mut expected = Vec::new();
    for y in -1i16..=1 {
        for z in -1i16..=1 {
            for x in -1i16..=1 {
                expected.push((x, y, z));
            }
        }
    }
    for (i, c) in chunks.iter().enumerate() {
        assert_eq!(c.get_index(), expected[i]);
    }

    // A second visit creates nothing new.
    let len_before = index.get_index_file_length();
    let again = index.get_chunks_in_range((-1, -1, -1), (1, 1, 1)).unwrap();
    assert_eq!(again.len(), 27);
    assert_eq!(index.get_index_file_length(), len_before);
}

#[test]
fn swapped_corners_describe_the_same_box() {
    let mut index = TerrainDiskStorage::initialize(Vec::new(), Vec::new());
    let chunks = index.get_chunks_in_range((1, 1, 1), (-1, -1, -1)).unwrap();
    assert_eq!(chunks.len(), 27);
    assert_eq!(chunks[0].get_index(), (-1, -1, -1));
    assert_eq!(chunks[26].get_index(), (1, 1, 1));

    // Mixed corners normalize per axis.
    let more = index.get_chunks_in_range((1, -1, 0), (-1, 1, 0)).unwrap();
    assert_eq!(more.len(), 9);
}

#[test]
fn save_into_the_wrong_store_is_out_of_range() {
    // Build one store with two chunks, so the second sits at offset 8192.
    let mut big = TerrainDiskStorage::initialize(Vec::new(), Vec::new());
    big.get_or_create_chunk(0, 0, 0).unwrap();
    let (_created, stray) = big.get_or_create_chunk(1, 0, 0).unwrap();
    assert_eq!(stray.get_address_in_file(), 8192);

    // A store whose chunk file holds only one record rejects that payload.
    let mut small = TerrainDiskStorage::initialize(Vec::new(), Vec::new());
    small.get_or_create_chunk(0, 0, 0).unwrap();
    assert_eq!(small.save_chunk(&stray), Err(StorageError::OutOfRange));
}

#[test]
fn flush_reports_exactly_the_dirty_nodes() {
    let mut index = TerrainDiskStorage::initialize(Vec::new(), Vec::new());
    // A fresh root is dirty until first flushed.
    assert_eq!(index.flush_index(), vec![0]);
    assert_eq!(index.flush_index(), Vec::<u64>::new());

    // Creating one chunk touches the root and allocates five nodes.
    index.get_or_create_chunk(0, 0, 0).unwrap();
    assert_eq!(index.flush_index(), vec![0, 2048, 4096, 6144, 8192, 10240]);
    assert_eq!(index.flush_index(), Vec::<u64>::new());

    // A reopened store starts clean.
    let reopened = TerrainDiskStorage::initialize(
        index.index_image().clone(),
        index.chunk_image().clone(),
    );
    let mut reopened = reopened;
    assert_eq!(reopened.flush_index(), Vec::<u64>::new());
}
