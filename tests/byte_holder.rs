use node_tree::byte_holder::{ByteHolder, ByteLayout};

#[test]
fn test_from_slice() {
    let bytes: Vec<u8> = vec![1, 2, 3, 4, 5];
    let layout = ByteLayout::from_size_align(bytes.len(), 1).unwrap();
    let byte_holder = ByteHolder::from_slice(&bytes, layout);

    assert_eq!(byte_holder.layout.size(), bytes.len());
    assert_eq!(byte_holder.layout.align(), 1);
    assert_eq!(byte_holder.need_drop, true);

    for i in 0..bytes.len() {
        assert_eq!(byte_holder.bytes[i], bytes[i]);
    }
}

#[test]
fn test_downcast_ref() {
    let value: u32 = 42;
    let bytes = value.to_le_bytes();
    let layout = ByteLayout::from_size_align(4, 4).unwrap();
    let byte_holder = ByteHolder::from_slice(&bytes, layout);

    let ref_value: u32 = byte_holder.downcast_ref();
    assert_eq!(ref_value, value);
}

#[test]
fn test_downcast_mut() {
    let value: u32 = 42;
    let bytes = value.to_le_bytes();
    let layout = ByteLayout::from_size_align(4, 4).unwrap();
    let mut byte_holder = ByteHolder::from_slice(&bytes, layout);

    byte_holder.downcast_mut(&24u32);
    assert_eq!(byte_holder.downcast_ref::<u32>(), 24);
}

#[test]
fn test_downcast_box() {
    let value: u32 = 42;
    let bytes = value.to_le_bytes();
    let layout = ByteLayout::from_size_align(4, 4).unwrap();
    let byte_holder = ByteHolder::from_slice(&bytes, layout);

    let boxed_value: Box<u32> = byte_holder.downcast_box();
    assert_eq!(*boxed_value, value);
}

#[test]
fn test_drop() {
    let bytes: Vec<u8> = vec![1, 2, 3, 4, 5];
    let layout = ByteLayout::from_size_align(bytes.len(), 1).unwrap();
    let byte_holder = ByteHolder::from_slice(&bytes, layout);

    drop(byte_holder);
}

#[test]
fn round_trip_of_each_plain_type() {
    let a: u8 = 0xab;
    let b: u32 = 0xdead_beef;
    let c: u64 = 0x0123_4567_89ab_cdef;
    assert_eq!(ByteHolder::from_ref(&a).downcast_ref::<u8>(), a);
    assert_eq!(ByteHolder::from_ref(&b).downcast_ref::<u32>(), b);
    assert_eq!(ByteHolder::from_ref(&c).downcast_ref::<u64>(), c);
    assert_eq!(*ByteHolder::from_ref(&c).downcast_box::<u64>(), c);
}

#[test]
fn from_ref_keeps_bytes_in_little_endian_order() {
    let holder = ByteHolder::from_ref(&0x0403_0201u32);
    assert_eq!(holder.bytes, vec![1u8, 2, 3, 4]);
    assert_eq!(holder.layout.size(), 4);
    assert_eq!(holder.layout.align(), 4);
    let wide = ByteHolder::from_ref(&0x0807_0605_0403_0201u64);
    assert_eq!(wide.bytes, vec![1u8, 2, 3, 4, 5, 6, 7, 8]);
    assert_eq!(wide.layout.align(), 8);
}

#[test]
fn clone_is_independent_of_its_source() {
    let mut source = ByteHolder::from_ref(&42u32);
    let copy = source.clone();
    source.downcast_mut(&7u32);
    assert_eq!(source.downcast_ref::<u32>(), 7);
    assert_eq!(copy.downcast_ref::<u32>(), 42);

    let mut second = copy.clone();
    second.downcast_mut(&9u32);
    assert_eq!(copy.downcast_ref::<u32>(), 42);
    assert_eq!(copy.layout, second.layout);
    assert!(second.need_drop);
}

#[test]
fn layouts_that_are_refused() {
    assert!(ByteLayout::from_size_align(4, 3).is_none());
    assert!(ByteLayout::from_size_align(4, 0).is_none());
    assert!(ByteLayout::from_size_align(usize::MAX, 8).is_none());
    assert!(ByteLayout::from_size_align(isize::MAX as usize, 2).is_none());
    let largest = ByteLayout::from_size_align(isize::MAX as usize, 1).unwrap();
    assert_eq!(largest.size(), isize::MAX as usize);
    let empty = ByteLayout::from_size_align(0, 1).unwrap();
    assert_eq!(empty.size(), 0);
    assert_eq!(ByteLayout::from_size_align(16, 16).unwrap().align(), 16);
}
