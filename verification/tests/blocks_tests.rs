//! Tests of block identifiers and the block registry.

use grid_world::blocks::{
    block_id_from_raw, block_id_to_raw, BlockID, BlockRegistry, RegistryError,
};

#[test]
fn block_id_transmutation() {
    // A present block and an absent block share the 16-bit payload slot:
    // an identifier keeps its value, absence reads as zero.
    let block_id = Some(BlockID::new(5));
    assert_eq!(block_id_to_raw(block_id), 5u16);

    let block_id = None;
    assert_eq!(block_id_to_raw(block_id), 0u16);
}

#[test]
fn raw_block_values_round_trip() {
    assert_eq!(block_id_from_raw(0), None);
    assert_eq!(block_id_from_raw(7), Some(BlockID::new(7)));
    assert_eq!(block_id_to_raw(block_id_from_raw(1234)), 1234);
    assert_eq!(block_id_to_raw(block_id_from_raw(0)), 0);
}

#[test]
fn registry_assigns_dense_ids() {
    let mut registry = BlockRegistry::new();
    assert_eq!(registry.num_block_types(), 0);

    registry.add_block(String::from("stone"), String::from("Stone")).unwrap();
    registry.add_block(String::from("dirt"), String::from("Dirt")).unwrap();
    assert_eq!(registry.num_block_types(), 2);

    let stone = *registry.get_block_id_from_name("stone").unwrap();
    let dirt = *registry.get_block_id_from_name("dirt").unwrap();
    assert_eq!(stone.value(), 1);
    assert_eq!(dirt.value(), 2);
    assert!(registry.get_block_id_from_name("grass").is_none());

    let data = registry.get_block_data_from_id(dirt).unwrap();
    assert_eq!(data.name(), "dirt");
    assert_eq!(data.display_text(), "Dirt");
    assert_eq!(data.id(), dirt);

    let by_name = registry.get_block_data_from_name("stone").unwrap();
    assert_eq!(by_name.display_text(), "Stone");

    assert!(registry.get_block_data_from_id(BlockID::new(3)).is_none());
}

#[test]
fn duplicate_names_are_rejected() {
    let mut registry = BlockRegistry::new();
    registry.add_block(String::from("stone"), String::from("Stone")).unwrap();
    assert_eq!(
        registry.add_block(String::from("stone"), String::from("Other stone")),
        Err(RegistryError::KeyAlreadyExists)
    );
    assert_eq!(registry.num_block_types(), 1);
}
