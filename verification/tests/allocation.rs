use type_diff::allocation::{page_size, AllocFailed, Allocation};

#[test]
fn verify_page_size() {
    assert_eq!(page_size(), 16384);
}

#[test]
fn allocations_round_up_to_the_page_size() {
    let a = Allocation::alloc_virtual(100, 8).unwrap();
    assert_eq!(a.bytes_remaining(), 16384);

    let b = Allocation::alloc_virtual(16385, 8).unwrap();
    assert_eq!(b.bytes_remaining(), 32768);

    let c = Allocation::alloc_virtual(1, 32768).unwrap();
    assert_eq!(c.bytes_remaining(), 32768);
}

#[test]
fn growing_extends_the_booked_size() {
    let mut a = Allocation::alloc_virtual(100, 8).unwrap();
    assert_eq!(a.grow(100), Ok(()));
    assert_eq!(a.bytes_remaining(), 16484);
}

#[test]
fn growing_past_the_address_space_fails() {
    let mut a = Allocation::alloc_virtual(100, 8).unwrap();
    assert_eq!(a.grow(usize::MAX), Err(AllocFailed::InvalidLayout));
    assert_eq!(a.bytes_remaining(), 16384);
}

#[test]
fn impossible_layouts_are_refused() {
    let r = Allocation::alloc_virtual(usize::MAX - 10, 16384);
    assert_eq!(r, Err(AllocFailed::InvalidLayout));
}
