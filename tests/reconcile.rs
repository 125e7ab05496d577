use node_tree::byte_holder::ByteLayout;
use node_tree::tree::{Bundle, NodeTree};
use node_tree::world::World;
use node_tree::InsertNodumEntity;

const COUNT: u64 = 10;
const TEXT: u64 = 11;
const A: u64 = 20;
const B: u64 = 21;
const MARK: u64 = 30;

fn leaf(text: &str) -> NodeTree {
    let bytes = text.as_bytes();
    NodeTree::new().with_bundle(Bundle::new().with_bytes(
        TEXT,
        bytes,
        ByteLayout::from_size_align(bytes.len(), 1).unwrap(),
    ))
}

fn text_of(world: &World, entity: usize) -> Vec<u8> {
    world.entities[entity].components.get(&TEXT).unwrap().bytes.clone()
}

fn apply(world: &mut World, entity: usize, nodum: NodeTree) {
    InsertNodumEntity { entity, nodum }.apply(world);
    world.run_spawn_schedule();
}

fn nothing_pending(world: &World) -> bool {
    world.entities.iter().all(|e| e.pending.is_none())
}

#[test]
fn count_and_leaves_over_three_frames() {
    let mut world = World::new();
    let e = world.spawn_empty();

    apply(&mut world, e, NodeTree::new().with(COUNT, 1u32).with_children(vec![leaf("a")]));
    assert_eq!(world.get_component::<u32>(e, COUNT), Some(1));
    assert_eq!(world.entities[e].children.len(), 1);
    let first = world.entities[e].children[0];
    assert_eq!(text_of(&world, first), b"a".to_vec());

    apply(&mut world, e, NodeTree::new().with(COUNT, 2u32).with_children(vec![leaf("a"), leaf("b")]));
    assert_eq!(world.get_component::<u32>(e, COUNT), Some(2));
    assert_eq!(world.entities[e].children.len(), 2);
    assert_eq!(world.entities[e].children[0], first);
    let second = world.entities[e].children[1];
    assert_ne!(second, first);
    assert_eq!(text_of(&world, first), b"a".to_vec());
    assert_eq!(text_of(&world, second), b"b".to_vec());

    apply(&mut world, e, NodeTree::new());
    assert!(!world.contains_component(e, COUNT));
    assert_eq!(world.component_count(e), 0);
    assert_eq!(world.entities[e].children.len(), 0);
    assert!(!world.entities[first].alive);
    assert!(!world.entities[second].alive);
    assert_eq!(world.entities[e].template.as_ref().unwrap().component_types.len(), 0);
    assert!(nothing_pending(&world));
}

#[test]
fn same_shape_twice_changes_nothing() {
    let mut world = World::new();
    let e = world.spawn_empty();
    let shape = || NodeTree::new().with(A, 1u32).with(B, 2u64).with_child(leaf("x"));
    apply(&mut world, e, shape());
    let child = world.entities[e].children[0];
    assert_eq!(world.component_count(e), 2);
    apply(&mut world, e, shape());
    assert_eq!(world.component_count(e), 2);
    assert_eq!(world.get_component::<u32>(e, A), Some(1));
    assert_eq!(world.get_component::<u64>(e, B), Some(2));
    assert_eq!(world.entities[e].children, vec![child]);
    assert_eq!(text_of(&world, child), b"x".to_vec());
    assert_eq!(world.entities.len(), 2);
}

#[test]
fn component_that_disappears_is_removed() {
    let mut world = World::new();
    let e = world.spawn_empty();
    apply(&mut world, e, NodeTree::new().with(A, 1u32).with(B, 2u32));
    assert!(world.contains_component(e, B));
    apply(&mut world, e, NodeTree::new().with(A, 1u32));
    assert!(world.contains_component(e, A));
    assert!(!world.contains_component(e, B));
    assert_eq!(world.component_count(e), 1);
}

#[test]
fn component_not_from_a_tree_stays() {
    let mut world = World::new();
    let e = world.spawn_empty();
    world.insert_component(e, MARK, node_tree::byte_holder::ByteHolder::from_ref(&3u8));
    apply(&mut world, e, NodeTree::new().with(A, 1u32));
    apply(&mut world, e, NodeTree::new());
    assert!(!world.contains_component(e, A));
    assert_eq!(world.get_component::<u8>(e, MARK), Some(3));
}

#[test]
fn component_is_updated_in_place() {
    let mut world = World::new();
    let e = world.spawn_empty();
    apply(&mut world, e, NodeTree::new().with(A, 7u32));
    apply(&mut world, e, NodeTree::new().with(A, 9u32));
    assert_eq!(world.get_component::<u32>(e, A), Some(9));
    assert_eq!(world.component_count(e), 1);
}

fn with_grandchild() -> NodeTree {
    NodeTree::new().with(A, 1u32).with_child(NodeTree::new().with(B, 2u32))
}

#[test]
fn children_shrink_from_five_to_two() {
    let mut world = World::new();
    let e = world.spawn_empty();
    apply(&mut world, e, NodeTree::new().with_children((0..5).map(|_| with_grandchild()).collect()));
    assert_eq!(world.entities[e].children.len(), 5);
    let old_children = world.entities[e].children.clone();
    let grandchildren: Vec<usize> = old_children.iter().map(|c| world.entities[*c].children[0]).collect();

    apply(&mut world, e, NodeTree::new().with_children((0..2).map(|_| with_grandchild()).collect()));
    assert_eq!(world.entities[e].children, old_children[0..2].to_vec());
    for j in 0..5 {
        assert_eq!(world.entities[old_children[j]].alive, j < 2);
        assert_eq!(world.entities[grandchildren[j]].alive, j < 2);
    }
    assert!(nothing_pending(&world));
}

#[test]
fn children_grow_from_one_to_five() {
    let mut world = World::new();
    let e = world.spawn_empty();
    apply(&mut world, e, NodeTree::new().with_child(leaf("0")));
    let first = world.entities[e].children[0];
    let before = world.entities.len();

    let texts = ["0", "1", "2", "3", "4"];
    apply(&mut world, e, NodeTree::new().with_children(texts.iter().map(|t| leaf(t)).collect()));
    assert_eq!(world.entities[e].children.len(), 5);
    assert_eq!(world.entities[e].children[0], first);
    assert_eq!(world.entities.len(), before + 4);
    for (i, t) in texts.iter().enumerate() {
        let c = world.entities[e].children[i];
        assert!(world.entities[c].alive);
        assert_eq!(text_of(&world, c), t.as_bytes().to_vec());
        assert_eq!(world.entities[c].parent, Some(e));
    }
}

#[test]
fn depth_three_resolves_in_four_passes() {
    let mut world = World::new();
    let e = world.spawn_empty();
    let tree = NodeTree::new().with_child(NodeTree::new().with_child(NodeTree::new().with(A, 1u32)));
    InsertNodumEntity { entity: e, nodum: tree }.apply(&mut world);

    let mut passes = 0;
    loop {
        world.spawned_count = 0;
        world.unpack_children();
        passes += 1;
        if world.spawned_count == 0 {
            break;
        }
        assert!(passes < 10);
    }
    assert_eq!(passes, 4);
    assert!(nothing_pending(&world));
    let child = world.entities[e].children[0];
    let grandchild = world.entities[child].children[0];
    assert_eq!(world.get_component::<u32>(grandchild, A), Some(1));

    let count = world.entities.len();
    world.spawned_count = 0;
    world.unpack_children();
    assert_eq!(world.spawned_count, 0);
    assert_eq!(world.entities.len(), count);
}

#[test]
fn schedule_ends_with_nothing_pending() {
    let mut world = World::new();
    let e = world.spawn_empty();
    InsertNodumEntity { entity: e, nodum: with_grandchild().with_child(leaf("z")) }.apply(&mut world);
    assert!(!nothing_pending(&world));
    world.run_spawn_schedule();
    assert!(nothing_pending(&world));
    assert_eq!(world.spawned_count, 0);
    assert_eq!(world.entities.len(), 3);
    assert_eq!(world.get_component::<u32>(e, A), Some(1));
    assert_eq!(world.entities[e].children.len(), 2);
}

#[test]
fn bundle_on_an_entity_gives_each_field() {
    let mut world = World::new();
    let e = world.spawn_empty();
    let x: u32 = 0xaabbccdd;
    let y: u64 = 77;
    apply(&mut world, e, NodeTree::new().with_bundle(Bundle::new().with_field(A, &x).with_field(B, &y)));
    assert_eq!(world.get_component::<u32>(e, A), Some(x));
    assert_eq!(world.get_component::<u64>(e, B), Some(y));
    assert!(world.registered.contains(&A));
    assert!(world.registered.contains(&B));
}

#[test]
fn pass_counts_one_per_entity_and_one_per_tree() {
    let mut world = World::new();
    let e = world.spawn_empty();
    InsertNodumEntity { entity: e, nodum: NodeTree::new().with_children(vec![leaf("a"), leaf("b"), leaf("c")]) }
        .apply(&mut world);
    assert_eq!(world.spawned_count, 1);
    world.spawned_count = 0;
    world.unpack_children();
    assert_eq!(world.spawned_count, 4);
    world.spawned_count = 0;
    world.unpack_children();
    assert_eq!(world.spawned_count, 3);
    world.spawned_count = 0;
    world.unpack_children();
    assert_eq!(world.spawned_count, 0);
}

#[test]
fn apply_records_template_and_registers_types() {
    let mut world = World::new();
    let e = world.spawn_empty();
    InsertNodumEntity { entity: e, nodum: NodeTree::new().with(A, 1u32).with(B, 2u32) }.apply(&mut world);
    assert_eq!(world.entities[e].template.as_ref().unwrap().component_types, vec![A, B]);
    assert!(world.registered.contains(&A) && world.registered.contains(&B));
    InsertNodumEntity { entity: e, nodum: NodeTree::new().with(A, 3u32).with(A, 4u32) }.apply(&mut world);
    assert_eq!(world.entities[e].template.as_ref().unwrap().component_types, vec![A]);
    assert_eq!(world.spawned_count, 2);
    assert!(!world.contains_component(e, B));
    assert_eq!(world.get_component::<u32>(e, A), Some(4));
}

#[test]
fn kept_children_keep_their_descendants() {
    let mut world = World::new();
    let e = world.spawn_empty();
    apply(&mut world, e, NodeTree::new().with_children((0..3).map(|_| with_grandchild()).collect()));
    let kept = world.entities[e].children[0];
    let grandchild = world.entities[kept].children[0];
    apply(&mut world, e, NodeTree::new().with_children(vec![with_grandchild()]));
    assert_eq!(world.entities[e].children, vec![kept]);
    assert_eq!(world.entities[kept].children, vec![grandchild]);
    assert!(world.entities[grandchild].alive);
}

#[test]
fn tree_applied_to_a_child_entity_is_built_under_it() {
    let mut world = World::new();
    let e = world.spawn_empty();
    apply(&mut world, e, NodeTree::new().with_child(NodeTree::new().with(A, 1u32)));
    let c = world.entities[e].children[0];
    apply(&mut world, c, NodeTree::new().with(A, 2u32).with_children(vec![leaf("x"), leaf("y")]));
    assert_eq!(world.get_component::<u32>(c, A), Some(2));
    assert_eq!(world.entities[c].children.len(), 2);
    assert_eq!(text_of(&world, world.entities[c].children[1]), b"y".to_vec());
    assert_eq!(world.entities[e].children, vec![c]);
    assert!(nothing_pending(&world));
}
