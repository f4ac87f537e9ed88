use std::mem;

use freelist::Freelist;

struct Entity {
    _a: i32,
    _b: i32,
    _c: i32,
}

struct SmallEntity {
    _a: i16,
    _b: i16,
    _c: i16,
}

#[test]
fn freelist_default_constructor() {
    let fl = Freelist::<Entity>::new().unwrap();
    assert_eq!(fl.capacity_blocks(), 0);
    assert_eq!(fl.used_blocks(), 0);
    assert_eq!(fl.free_blocks(), 0);
    assert_eq!(fl.type_size_bytes(), mem::size_of::<Entity>());
}

#[test]
#[should_panic]
fn freelist_type_too_small() {
    Freelist::<SmallEntity>::new().unwrap();
}

#[test]
fn freelist_reserve_exact() {
    let mut fl = Freelist::<Entity>::new().unwrap();
    fl.reserve_exact(100).unwrap();
    assert_eq!(fl.capacity_blocks(), 100);
    fl.reserve_exact(150).unwrap();
    assert_eq!(fl.capacity_blocks(), 150);
}
