use immix_rust::common::Address;
use immix_rust::error::HeapError;
use immix_rust::heap::freelist::{
    alloc_large, check_layout, is_valid_layout, FreeListSpace, LargeAllocAction, NodeMark,
    MAX_UNPRODUCTIVE_COLLECTIONS,
};
use immix_rust::heap::immix::ImmixMutatorLocal;

fn host(n: usize) -> Address {
    Address::from_usize(0x4000_0000 + n * 0x10_0000)
}

#[test]
fn new_space_is_empty() {
    let space = FreeListSpace::new(1 << 20);
    assert_eq!(space.size(), 1 << 20);
    assert_eq!(space.used_bytes(), 0);
    assert_eq!(space.current_nodes().len(), 0);
    assert!(space.has_room(1 << 20));
    assert!(!space.has_room((1 << 20) + 1));
}

#[test]
fn allocate_records_the_newest_node_first() {
    let mut space = FreeListSpace::new(1 << 20);
    assert_eq!(space.allocate(100, 8, host(0)), Some(host(0)));
    assert_eq!(space.allocate(200, 16, host(1)), Some(host(1)));
    assert_eq!(space.used_bytes(), 300);
    let nodes = space.current_nodes();
    assert_eq!(nodes.len(), 2);
    assert_eq!(nodes[0].id(), 1);
    assert_eq!(nodes[0].start(), host(1));
    assert_eq!(nodes[0].size(), 200);
    assert_eq!(nodes[0].align(), 16);
    assert_eq!(nodes[0].mark(), NodeMark::FreshAlloc);
    assert_eq!(nodes[1].id(), 0);
    assert_eq!(nodes[1].start(), host(0));
    assert_eq!(nodes[1].size(), 100);
    assert!(space.contains(host(0)));
    assert!(space.contains(host(1)));
    assert!(!space.contains(host(2)));
    assert!(!space.contains(host(0).plus(8)));
}

#[test]
fn allocate_refuses_what_passes_the_capacity() {
    let mut space = FreeListSpace::new(1000);
    assert_eq!(space.allocate(600, 8, host(0)), Some(host(0)));
    assert_eq!(space.allocate(401, 8, host(1)), None);
    assert_eq!(space.used_bytes(), 600);
    assert_eq!(space.current_nodes().len(), 1);
    assert_eq!(space.allocate(400, 8, host(1)), Some(host(1)));
    assert_eq!(space.used_bytes(), 1000);
    assert_eq!(space.allocate(1, 8, host(2)), None);
}

#[test]
fn allocate_refuses_a_null_or_misaligned_host_address() {
    let mut space = FreeListSpace::new(1000);
    assert_eq!(space.allocate(16, 8, Address::zero()), None);
    assert_eq!(space.allocate(16, 8, Address::from_usize(0x4000_0004)), None);
    assert_eq!(space.used_bytes(), 0);
    assert_eq!(space.current_nodes().len(), 0);
    assert_eq!(
        space.allocate(16, 4, Address::from_usize(0x4000_0004)),
        Some(Address::from_usize(0x4000_0004))
    );
}

#[test]
fn large_allocation_grows_used_bytes_by_its_size() {
    let mut space = FreeListSpace::new(1 << 20);
    let mut expected = 0;
    for (i, size) in [8usize, 65536, 1, 4096, 12345].iter().enumerate() {
        let a = space.allocate(*size, 8, host(i)).unwrap();
        expected += size;
        assert_eq!(a.as_usize() % 8, 0);
        assert!(space.contains(a));
        assert_eq!(space.used_bytes(), expected);
    }
}

#[test]
fn mark_sets_live_on_the_named_object_only() {
    let mut space = FreeListSpace::new(1 << 20);
    space.allocate(100, 8, host(0)).unwrap();
    space.allocate(200, 8, host(1)).unwrap();
    space.allocate(300, 8, host(2)).unwrap();
    assert!(!space.is_live(host(1)));
    space.mark(host(1));
    assert!(space.is_live(host(1)));
    assert!(!space.is_live(host(0)));
    assert!(!space.is_live(host(2)));
    let nodes = space.current_nodes();
    assert_eq!(nodes[0].mark(), NodeMark::FreshAlloc);
    assert_eq!(nodes[1].mark(), NodeMark::Live);
    assert_eq!(nodes[2].mark(), NodeMark::FreshAlloc);
    assert_eq!(nodes[1].start(), host(1));
    assert_eq!(space.used_bytes(), 600);
}

#[test]
fn mark_of_an_unknown_address_changes_nothing() {
    let mut space = FreeListSpace::new(1 << 20);
    space.allocate(100, 8, host(0)).unwrap();
    space.mark(host(5));
    assert!(!space.is_live(host(0)));
    assert!(!space.is_live(host(5)));
    assert_eq!(space.current_nodes()[0].mark(), NodeMark::FreshAlloc);
}

#[test]
fn sweep_keeps_the_live_nodes_in_order() {
    let mut space = FreeListSpace::new(1 << 20);
    for (i, size) in [100usize, 200, 300, 400, 500].iter().enumerate() {
        space.allocate(*size, 8, host(i)).unwrap();
    }
    space.mark(host(0));
    space.mark(host(2));
    space.mark(host(3));
    let reclaimed = space.sweep();
    assert_eq!(space.used_bytes(), 100 + 300 + 400);
    let nodes = space.current_nodes();
    assert_eq!(nodes.len(), 3);
    assert_eq!(nodes[0].start(), host(3));
    assert_eq!(nodes[1].start(), host(2));
    assert_eq!(nodes[2].start(), host(0));
    for n in nodes.iter() {
        assert_eq!(n.mark(), NodeMark::PrevLive);
    }
    assert_eq!(reclaimed.len(), 2);
    assert_eq!(reclaimed[0].start(), host(4));
    assert_eq!(reclaimed[0].size(), 500);
    assert_eq!(reclaimed[0].mark(), NodeMark::FreshAlloc);
    assert_eq!(reclaimed[1].start(), host(1));
    assert_eq!(reclaimed[1].size(), 200);
}

#[test]
fn sweep_used_bytes_is_the_sum_of_the_live_sizes() {
    let mut space = FreeListSpace::new(1 << 20);
    let sizes = [10usize, 20, 30, 40, 50, 60, 70];
    for (i, size) in sizes.iter().enumerate() {
        space.allocate(*size, 8, host(i)).unwrap();
    }
    let mut live = 0;
    for i in [1usize, 4, 6] {
        space.mark(host(i));
        live += sizes[i];
    }
    space.sweep();
    assert_eq!(space.used_bytes(), live);
}

#[test]
fn sweep_drops_fresh_and_previously_live_nodes_alike() {
    let mut space = FreeListSpace::new(1 << 20);
    space.allocate(100, 8, host(0)).unwrap();
    space.mark(host(0));
    assert_eq!(space.sweep().len(), 0);
    assert_eq!(space.current_nodes()[0].mark(), NodeMark::PrevLive);
    space.allocate(200, 8, host(1)).unwrap();
    let reclaimed = space.sweep();
    assert_eq!(reclaimed.len(), 2);
    assert_eq!(reclaimed[0].mark(), NodeMark::FreshAlloc);
    assert_eq!(reclaimed[1].mark(), NodeMark::PrevLive);
    assert_eq!(space.used_bytes(), 0);
    assert_eq!(space.current_nodes().len(), 0);
}

#[test]
fn sweep_of_an_empty_space() {
    let mut space = FreeListSpace::new(64);
    assert_eq!(space.sweep().len(), 0);
    assert_eq!(space.used_bytes(), 0);
}

#[test]
fn ids_go_on_after_a_sweep() {
    let mut space = FreeListSpace::new(1 << 20);
    space.allocate(8, 8, host(0)).unwrap();
    space.allocate(8, 8, host(1)).unwrap();
    space.sweep();
    space.allocate(8, 8, host(2)).unwrap();
    assert_eq!(space.current_nodes()[0].id(), 2);
}

#[test]
fn node_set_mark() {
    let mut space = FreeListSpace::new(1 << 20);
    space.allocate(8, 8, host(0)).unwrap();
    {
        let nodes = space.current_nodes_mut();
        nodes[0].set_mark(NodeMark::Live);
    }
    assert!(space.is_live(host(0)));
    assert_eq!(space.current_nodes()[0].mark(), NodeMark::Live);
    assert_eq!(space.current_nodes()[0].size(), 8);
}

#[test]
fn layout_check() {
    assert_eq!(check_layout(16, 8), Ok(()));
    assert_eq!(check_layout(1, 1), Ok(()));
    assert_eq!(check_layout(0, 8), Err(HeapError::InvalidLayout));
    assert_eq!(check_layout(16, 0), Err(HeapError::InvalidLayout));
    assert_eq!(check_layout(16, 3), Err(HeapError::InvalidLayout));
    assert_eq!(check_layout(16, 24), Err(HeapError::InvalidLayout));
    assert_eq!(check_layout(usize::MAX, 8), Err(HeapError::InvalidLayout));
    let top = isize::MAX as usize;
    assert!(is_valid_layout(top, 1));
    assert!(!is_valid_layout(top, 2));
    assert!(is_valid_layout(top - 1, 2));
    assert!(is_valid_layout(0, 8));
    assert!(!is_valid_layout(8, 0));
}

#[test]
fn large_allocation_rounds() {
    let mut mutator = ImmixMutatorLocal::new(0);
    let mut space = FreeListSpace::new(1000);
    assert_eq!(alloc_large(1000, &mutator, &space, 0), LargeAllocAction::Place);
    assert_eq!(alloc_large(1001, &mutator, &space, 0), LargeAllocAction::Collect);
    assert_eq!(alloc_large(1001, &mutator, &space, 1), LargeAllocAction::Collect);
    assert_eq!(
        alloc_large(1001, &mutator, &space, MAX_UNPRODUCTIVE_COLLECTIONS),
        LargeAllocAction::Fail
    );
    space.allocate(600, 8, host(0)).unwrap();
    assert_eq!(alloc_large(400, &mutator, &space, 0), LargeAllocAction::Place);
    assert_eq!(alloc_large(401, &mutator, &space, 0), LargeAllocAction::Collect);
    mutator.request_yield();
    assert_eq!(alloc_large(400, &mutator, &space, 0), LargeAllocAction::Park);
    assert_eq!(alloc_large(401, &mutator, &space, 5), LargeAllocAction::Park);
}
