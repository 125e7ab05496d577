use node_tree::byte_holder::ByteLayout;
use node_tree::tree::{Bundle, NodeTree};

const TEST_COMPONENT: u64 = 1;
const ANOTHER_COMPONENT: u64 = 2;

fn text_bundle(type_id: u64, text: &str) -> Bundle {
    let bytes = text.as_bytes();
    Bundle::new().with_bytes(type_id, bytes, ByteLayout::from_size_align(bytes.len(), 1).unwrap())
}

#[test]
fn test_with_component() {
    let entity = NodeTree::default().with(TEST_COMPONENT, 42u32);

    assert!(entity.contains(TEST_COMPONENT));
    assert_eq!(entity.get::<u32>(TEST_COMPONENT), Some(42));
}

#[test]
fn test_with_bundle() {
    let hello = "Hello".as_bytes();
    let entity = NodeTree::default().with_bundle(
        Bundle::new()
            .with_field(TEST_COMPONENT, &42u32)
            .with_bytes(ANOTHER_COMPONENT, hello, ByteLayout::from_size_align(hello.len(), 1).unwrap()),
    );

    assert!(entity.contains(TEST_COMPONENT));
    assert!(entity.contains(ANOTHER_COMPONENT));
    assert_eq!(entity.get::<u32>(TEST_COMPONENT), Some(42));
    assert_eq!(entity.get_bytes(ANOTHER_COMPONENT), Some("Hello".as_bytes().to_vec()));
}

#[test]
fn test_with_child() {
    let child = NodeTree::default().with(TEST_COMPONENT, 24u32);

    let entity = NodeTree::default().with(TEST_COMPONENT, 42u32).with_child(child);

    assert_eq!(entity.children.len(), 1);
    assert!(entity.children[0].contains(TEST_COMPONENT));
    assert_eq!(entity.children[0].get::<u32>(TEST_COMPONENT), Some(24));
}

#[test]
fn test_with_children() {
    let child1 = NodeTree::default().with(TEST_COMPONENT, 24u32);

    let child2 = NodeTree::default().with_bundle(text_bundle(ANOTHER_COMPONENT, "World"));

    let entity = NodeTree::default().with(TEST_COMPONENT, 42u32).with_children(vec![child1, child2]);

    assert_eq!(entity.children.len(), 2);
    assert!(entity.children[0].contains(TEST_COMPONENT));
    assert_eq!(entity.children[0].get::<u32>(TEST_COMPONENT), Some(24));
    assert!(entity.children[1].contains(ANOTHER_COMPONENT));
    assert_eq!(entity.children[1].get_bytes(ANOTHER_COMPONENT), Some("World".as_bytes().to_vec()));
}

#[test]
fn later_component_of_a_type_wins() {
    let node = NodeTree::new().with(TEST_COMPONENT, 1u32).with(TEST_COMPONENT, 2u32);
    assert_eq!(node.get::<u32>(TEST_COMPONENT), Some(2));
    assert_eq!(node.components.len(), 1);
    assert!(!node.contains(ANOTHER_COMPONENT));
    assert_eq!(node.get::<u32>(ANOTHER_COMPONENT), None);
    assert_eq!(node.get_bytes(ANOTHER_COMPONENT), None);
}

#[test]
fn get_with_the_wrong_type_gives_nothing() {
    let node = NodeTree::new().with(TEST_COMPONENT, 42u32);
    assert_eq!(node.get::<u64>(TEST_COMPONENT), None);
    assert_eq!(node.get::<u8>(TEST_COMPONENT), None);
    assert_eq!(node.get::<u32>(TEST_COMPONENT), Some(42));
}

#[test]
fn bundle_fields_keep_their_bytes() {
    let x: u64 = 0x1122_3344_5566_7788;
    let y: u8 = 9;
    let node = NodeTree::new().with(TEST_COMPONENT, 5u32).with_bundle(
        Bundle::new().with_field(ANOTHER_COMPONENT, &x).with_field(3, &y),
    );
    assert_eq!(node.get::<u64>(ANOTHER_COMPONENT), Some(x));
    assert_eq!(node.get::<u8>(3), Some(y));
    assert_eq!(node.get_bytes(ANOTHER_COMPONENT), Some(x.to_le_bytes().to_vec()));
    assert_eq!(node.get::<u32>(TEST_COMPONENT), Some(5));
    assert_eq!(node.register_queue.len(), 2);
    assert_eq!(node.register_queue[1], vec![ANOTHER_COMPONENT, 3]);
}

#[test]
fn bundle_field_replaces_a_component_of_its_type() {
    let mut node = NodeTree::new().with(TEST_COMPONENT, 5u32);
    node.insert_bundle(Bundle::new().with_field(TEST_COMPONENT, &6u32));
    assert_eq!(node.get::<u32>(TEST_COMPONENT), Some(6));
    assert_eq!(node.components.len(), 1);
}

#[test]
fn builders_queue_their_types_for_registration() {
    let node = NodeTree::new().with(TEST_COMPONENT, 1u32);
    assert_eq!(node.register_queue, vec![vec![TEST_COMPONENT]]);
    let node = node.with_bundle(Bundle::new().with_field(ANOTHER_COMPONENT, &2u8).with_field(5, &3u8));
    assert_eq!(node.register_queue, vec![vec![TEST_COMPONENT], vec![ANOTHER_COMPONENT, 5]]);
    assert!(node.is_wf());
}
