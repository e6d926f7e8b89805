use kheap::cache::PtrCache;

#[test]
fn magazine_is_last_in_first_out() {
    let mut m = PtrCache::new();
    assert!(m.is_empty());
    assert!(m.free(0x1000).is_ok());
    assert!(m.free(0x2000).is_ok());
    assert_eq!(m.allocate(), Some(0x2000));
    assert_eq!(m.allocate(), Some(0x1000));
    assert_eq!(m.allocate(), None);
}
