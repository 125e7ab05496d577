use node_tree::typed_component_holder::TypedComponentHolder;
use node_tree::world::World;

const TEST_COMPONENT: u64 = 1;

#[test]
fn typed_component_holder_test_new() {
    let component: u32 = 42;
    let holder = TypedComponentHolder::new(TEST_COMPONENT, component);

    assert_eq!(holder.val.downcast_ref::<u32>(), component);
    assert_eq!(holder.type_id, TEST_COMPONENT);
}

#[test]
fn test_insert() {
    let mut world = World::new();
    let entity = world.spawn_empty();

    let component: u32 = 42;
    let holder = TypedComponentHolder::new(TEST_COMPONENT, component);

    world.insert_component(entity, holder.type_id, holder.val);

    assert!(world.contains_component(entity, TEST_COMPONENT));
    assert_eq!(world.get_component::<u32>(entity, TEST_COMPONENT), Some(component));
}

#[test]
fn test_write() {
    let mut world = World::new();
    let entity = world.spawn_empty();

    let component: u32 = 42;
    world.insert_component(entity, TEST_COMPONENT, TypedComponentHolder::new(TEST_COMPONENT, component).val);

    let new_component: u32 = 24;
    let holder = TypedComponentHolder::new(TEST_COMPONENT, new_component);

    world.write_component(entity, holder.type_id, holder.val);

    assert!(world.contains_component(entity, TEST_COMPONENT));
    assert_eq!(world.get_component::<u32>(entity, TEST_COMPONENT), Some(new_component));
}

#[test]
fn typed_component_holder_test_remove() {
    let mut world = World::new();
    let entity = world.spawn_empty();

    let component: u32 = 42;
    world.insert_component(entity, TEST_COMPONENT, TypedComponentHolder::new(TEST_COMPONENT, component).val);

    let holder = TypedComponentHolder::new(TEST_COMPONENT, component);

    assert!(world.contains_component(entity, TEST_COMPONENT));

    world.remove_component(entity, holder.type_id);

    assert!(!world.contains_component(entity, TEST_COMPONENT));
}
