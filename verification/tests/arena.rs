use git_craft::render::arena::Arena;

#[test]
fn allocates_from_the_start() {
    let mut a = Arena::new(100);
    assert_eq!(a.allocate(10), Some(0));
    assert_eq!(a.allocate(20), Some(10));
    assert_eq!(a.used(), 30);
}

#[test]
fn refuses_when_no_hole_fits() {
    let mut a = Arena::new(100);
    assert_eq!(a.allocate(60), Some(0));
    assert_eq!(a.allocate(50), None, "only 40 left");
    assert_eq!(a.used(), 60, "failed alloc must not change accounting");
}

#[test]
fn freed_ranges_are_reused() {
    let mut a = Arena::new(100);
    let x = a.allocate(40).unwrap();
    a.allocate(40).unwrap();
    a.free(x, 40);
    assert_eq!(a.allocate(30), Some(0), "first-fit lands in the freed hole");
}

#[test]
fn adjacent_frees_coalesce() {
    let mut a = Arena::new(100);
    let x = a.allocate(30).unwrap();
    let y = a.allocate(30).unwrap();
    let z = a.allocate(40).unwrap();
    assert_eq!((x, y, z), (0, 30, 60));
    a.free(x, 30);
    a.free(z, 40);
    a.free(y, 30);
    assert_eq!(a.used(), 0);
    assert_eq!(a.allocate(100), Some(0), "fully coalesced back to one range");
}

#[test]
fn zero_len_alloc_is_rejected() {
    let mut a = Arena::new(100);
    assert_eq!(a.allocate(0), None);
}

#[test]
fn exact_fit_consumes_the_hole() {
    let mut a = Arena::new(50);
    assert_eq!(a.allocate(50), Some(0));
    assert_eq!(a.allocate(1), None);
    a.free(0, 50);
    assert_eq!(a.allocate(50), Some(0));
}

#[test]
fn capacity_is_what_the_arena_was_made_with() {
    let mut a = Arena::new(64);
    a.allocate(10);
    assert_eq!(a.capacity(), 64);
}

#[test]
fn an_empty_arena_hands_out_nothing() {
    let mut a = Arena::new(0);
    assert_eq!(a.allocate(1), None);
    assert_eq!(a.used(), 0);
    assert_eq!(a.capacity(), 0);
}

#[test]
fn freeing_an_allocation_restores_the_arena() {
    let mut a = Arena::new(100);
    assert_eq!(a.allocate(10), Some(0));
    assert_eq!(a.allocate(20), Some(10));
    let used = a.used();
    let o = a.allocate(5).unwrap();
    a.free(o, 5);
    assert_eq!(a.used(), used);
    // The arena behaves as before: the same request lands in the same place.
    assert_eq!(a.allocate(5), Some(o));
}

#[test]
fn freeing_nothing_changes_nothing() {
    let mut a = Arena::new(100);
    assert_eq!(a.allocate(10), Some(0));
    a.free(5, 0);
    assert_eq!(a.used(), 10);
    assert_eq!(a.allocate(90), Some(10));
    assert_eq!(a.allocate(1), None);
}
