use node_tree::byte_holder::ByteHolder;
use node_tree::raw_component_holder::RawComponentHolder;
use node_tree::world::World;

const TEST: u64 = 7;

#[test]
fn raw_component_holder_test_new() {
    let value: u32 = 42;
    let byte_holder = ByteHolder::from_ref(&value);

    let raw_component_holder = RawComponentHolder::new(byte_holder, TEST);

    assert_eq!(raw_component_holder.type_id, TEST);
    assert!(raw_component_holder.get::<u32>(TEST).is_some());
    assert_eq!(raw_component_holder.get::<u32>(TEST).unwrap(), value);
}

#[test]
fn test_insert_and_write() {
    let mut world = World::new();
    let entity = world.spawn_empty();

    let value: u32 = 32;
    let byte_holder = ByteHolder::from_ref(&value);

    let raw_component_holder = RawComponentHolder::new(byte_holder, TEST);

    world.insert_component(entity, raw_component_holder.type_id, raw_component_holder.val.clone());
    assert!(world.contains_component(entity, TEST));
    assert_eq!(world.get_component::<u32>(entity, TEST).unwrap(), value);

    let new_value: u32 = 42;
    let new_byte_holder = ByteHolder::from_ref(&new_value);

    world.write_component(entity, raw_component_holder.type_id, new_byte_holder);
    assert!(world.contains_component(entity, TEST));
    assert_eq!(world.get_component::<u32>(entity, TEST).unwrap(), new_value);
}

#[test]
fn raw_component_holder_test_remove() {
    let mut world = World::new();
    let entity = world.spawn_empty();

    let value: u32 = 32;
    let byte_holder = ByteHolder::from_ref(&value);

    let raw_component_holder = RawComponentHolder::new(byte_holder, TEST);

    world.insert_component(entity, raw_component_holder.type_id, raw_component_holder.val.clone());
    assert!(world.contains_component(entity, TEST));

    world.remove_component(entity, raw_component_holder.type_id);
    assert!(!world.contains_component(entity, TEST));
}

#[test]
fn raw_get_refuses_bytes_of_another_size() {
    let holder = RawComponentHolder::new(ByteHolder::from_ref(&5u64), TEST);
    assert_eq!(holder.get::<u32>(TEST), None);
    assert_eq!(holder.get::<u64>(TEST), Some(5));
}

#[test]
fn raw_get_refuses_another_type_id() {
    let holder = RawComponentHolder::new(ByteHolder::from_ref(&5u32), TEST);
    assert_eq!(holder.get::<u32>(TEST + 1), None);
    assert_eq!(holder.get::<u32>(TEST), Some(5));
}
