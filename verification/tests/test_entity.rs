use realm::entity::{Entity, EntityAllocator};

#[test]
fn test_allocate_deallocate_from_empty_allocator() {
    let mut allocator = EntityAllocator::new();
    let expected = allocator.allocate();
    allocator.deallocate(expected);
    let result = allocator.allocate();

    assert_eq!(result, expected);
}

#[test]
fn test_allocate_mints_consecutive_ids() {
    let mut allocator = EntityAllocator::new();
    let first = allocator.allocate();
    let second = allocator.allocate();
    let third = allocator.allocate();

    assert_eq!(first.id(), 0);
    assert_eq!(second.id(), 1);
    assert_eq!(third.id(), 2);
}

#[test]
fn test_recycled_handles_come_back_in_fifo_order() {
    let mut allocator = EntityAllocator::new();
    let first = allocator.allocate();
    let second = allocator.allocate();
    allocator.deallocate(first);
    allocator.deallocate(second);

    assert_eq!(allocator.allocate(), first);
    assert_eq!(allocator.allocate(), second);
}

#[test]
fn test_deallocate_of_unminted_handle_is_ignored() {
    let mut allocator = EntityAllocator::new();
    let minted = allocator.allocate();
    allocator.deallocate(Entity(100));

    allocator.deallocate(minted);
    assert_eq!(allocator.allocate(), minted);
    assert_eq!(allocator.allocate(), Entity(1));
}
