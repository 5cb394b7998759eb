use vello::pool::{size_class, BufferProperties, ResourcePool, SIZE_CLASS_BITS};

#[test]
fn size_classes_keep_two_significant_bits() {
    assert_eq!(size_class(0, 1), 2);
    assert_eq!(size_class(1, 1), 2);
    assert_eq!(size_class(2, 1), 2);
    assert_eq!(size_class(3, 1), 3);
    assert_eq!(size_class(4, 1), 4);
    assert_eq!(size_class(5, 1), 6);
    assert_eq!(size_class(7, 1), 8);
    assert_eq!(size_class(9, 1), 12);
    assert_eq!(size_class(13, 1), 16);
    assert_eq!(size_class(1000, 1), 1024);
    assert_eq!(size_class(1025, 1), 1536);
    assert_eq!(size_class(1 << 62, 1), 1 << 62);
    assert_eq!(size_class((1 << 62) + 1, 1), 3 << 61);
}

#[test]
fn size_classes_with_more_bits() {
    assert_eq!(size_class(5, 2), 5);
    assert_eq!(size_class(9, 2), 10);
    assert_eq!(size_class(100, 0), 128);
    assert_eq!(size_class(0, 4), 16);
}

#[test]
fn size_class_is_idempotent_on_samples() {
    for x in [1u64, 3, 17, 100, 4097, 123_456_789] {
        let c = size_class(x, SIZE_CLASS_BITS);
        assert!(c >= x);
        assert_eq!(size_class(c, SIZE_CLASS_BITS), c);
    }
}

#[test]
fn pool_returns_last_buffer_of_matching_class() {
    let mut pool: ResourcePool<&str> = ResourcePool::new();
    let (size, none) = pool.get_buf(1000, "scene", 8);
    assert_eq!(size, 1024);
    assert!(none.is_none());
    pool.return_buf(BufferProperties { size: 1024, usages: 8, name: "scene" }, "first");
    pool.return_buf(BufferProperties { size: 1024, usages: 8, name: "scene" }, "second");
    pool.return_buf(BufferProperties { size: 1024, usages: 4, name: "scene" }, "other usage");
    pool.return_buf(BufferProperties { size: 1024, usages: 8, name: "tiles" }, "other name");
    assert_eq!(pool.get_buf(900, "scene", 8), (1024, Some("second")));
    assert_eq!(pool.get_buf(1024, "scene", 8), (1024, Some("first")));
    assert_eq!(pool.get_buf(1024, "scene", 8), (1024, None));
    assert_eq!(pool.get_buf(1000, "scene", 4), (1024, Some("other usage")));
    assert_eq!(pool.get_buf(1000, "tiles", 8), (1024, Some("other name")));
    assert_eq!(pool.get_buf(3000, "tiles", 8), (3072, None));
}

#[test]
fn pool_names_compare_by_their_characters() {
    let mut pool: ResourcePool<u8> = ResourcePool::new();
    pool.return_buf(BufferProperties { size: 8, usages: 1, name: "tuilé" }, 1);
    assert_eq!(pool.get_buf(8, "tuile", 1), (8, None));
    assert_eq!(pool.get_buf(8, "tuilé!", 1), (8, None));
    assert_eq!(pool.get_buf(8, "tuilé", 1), (8, Some(1)));
}
