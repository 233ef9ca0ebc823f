use kitties::allocator::IdAllocator;
use kitties::error::Error;

#[test]
fn ids_start_at_zero_and_grow_by_one() {
    let mut ids = IdAllocator::new();
    let mut last: Option<u64> = None;
    for expected in 0..50u64 {
        let id = ids.next_id().unwrap();
        assert_eq!(id, expected);
        if let Some(before) = last {
            assert!(before < id);
        }
        last = Some(id);
        ids.advance();
    }
    assert_eq!(ids.count(), 50);
}

#[test]
fn reading_the_next_id_does_not_use_it_up() {
    let ids = IdAllocator::new();
    assert_eq!(ids.next_id(), Ok(0));
    assert_eq!(ids.next_id(), Ok(0));
    assert_eq!(ids.count(), 0);
}

#[test]
fn allocator_at_the_largest_id_overflows() {
    let mut ids = IdAllocator::starting_at(u64::MAX - 1);
    assert_eq!(ids.next_id(), Ok(u64::MAX - 1));
    ids.advance();
    assert_eq!(ids.count(), u64::MAX);
    assert_eq!(ids.next_id(), Err(Error::IdOverflow));
    assert_eq!(ids.count(), u64::MAX);
    assert_eq!(ids.next_id(), Err(Error::IdOverflow));
}
