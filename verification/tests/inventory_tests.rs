//! Tests of material registration and inventories.

use grid_world::inventory::{Inventory, MaterialRegistry, MaterialStack};

#[test]
fn materials_are_registered_in_order() {
    let mut registry = MaterialRegistry::new();
    registry.register_material(String::from("iron"), 7874);
    registry.register_material(String::from("gold"), 19300);

    let iron = registry.get_material_id("iron").unwrap();
    let gold = registry.get_material_id("gold").unwrap();
    assert!(registry.get_material_id("lead").is_none());

    let iron_info = registry.get_material_info(iron).unwrap();
    assert_eq!(iron_info.name_tag(), "iron");
    assert_eq!(iron_info.density(), 7874);
    assert_eq!(iron_info.id(), iron);

    let gold_info = registry.get_material_info(gold).unwrap();
    assert_eq!(gold_info.density(), 19300);
}

#[test]
fn later_registration_wins_a_name() {
    let mut registry = MaterialRegistry::new();
    registry.register_material(String::from("ore"), 100);
    registry.register_material(String::from("ore"), 250);

    let id = registry.get_material_id("ore").unwrap();
    let info = registry.get_material_info(id).unwrap();
    assert_eq!(info.density(), 250);
}

#[test]
fn stacks_and_inventories_are_built_plainly() {
    let mut registry = MaterialRegistry::new();
    registry.register_material(String::from("iron"), 7874);
    let iron = registry.get_material_id("iron").unwrap();

    let _stack = MaterialStack::new(iron, 64);
    let _bounded = Inventory::limited(1000);
    let _boundless = Inventory::infinite();
}
