use immix_rust::common::Address;
use immix_rust::error::HeapError;
use immix_rust::heap::immix::immix_mutator::MutatorState;
use immix_rust::heap::immix::{
    BlockMark, ImmixMutatorLocal, ImmixSpace, BYTES_IN_BLOCK, BYTES_IN_LINE, MAX_IMMIX_OBJECT,
};

const START: usize = 0x100_0000;

fn space(blocks: usize) -> ImmixSpace {
    ImmixSpace::new(Address::from_usize(START), blocks * BYTES_IN_BLOCK)
}

fn at(offset: usize) -> Address {
    Address::from_usize(START + offset)
}

fn block_of(a: Address) -> usize {
    (a.as_usize() - START) / BYTES_IN_BLOCK
}

#[test]
fn new_mutator_runs_and_holds_nothing() {
    let m = ImmixMutatorLocal::new(7);
    assert_eq!(m.id(), 7);
    assert_eq!(m.state(), MutatorState::Running);
    assert!(!m.has_block());
    assert!(!m.yieldpoint());
}

#[test]
fn bump_allocation_in_a_fresh_block() {
    let mut s = space(64);
    let mut m = ImmixMutatorLocal::new(0);
    let a0 = m.allocate(&mut s, 16, 8).unwrap();
    assert_eq!(a0, at(0));
    assert!(m.has_block());
    for i in 1..2048 {
        let a = m.allocate(&mut s, 16, 8).unwrap();
        assert_eq!(a, a0.plus(16 * i));
        assert_eq!(block_of(a), 0);
    }
    let next = m.allocate(&mut s, 16, 8).unwrap();
    assert_eq!(next, at(BYTES_IN_BLOCK));
    assert_eq!(block_of(next), 1);
}

#[test]
fn slow_path_acquires_a_new_block() {
    let mut s = space(64);
    let mut m = ImmixMutatorLocal::new(0);
    let big = m.allocate(&mut s, 32000, 8).unwrap();
    assert_eq!(big, at(0));
    let small = m.allocate(&mut s, 1000, 8).unwrap();
    assert_ne!(block_of(small), block_of(big));
    assert_eq!(small, at(BYTES_IN_BLOCK));
    assert_eq!(small.as_usize() % BYTES_IN_BLOCK, 0);
    assert_eq!(s.block_state(0), BlockMark::Usable);
    assert_eq!(s.block_state(1), BlockMark::CurrentlyInUseByMutator);
}

#[test]
fn the_fast_path_alone_does_not_lease() {
    let mut s = space(2);
    let mut m = ImmixMutatorLocal::new(0);
    assert_eq!(m.bump(16, 8), None);
    assert!(!m.has_block());
    assert_eq!(m.allocate(&mut s, 16, 8), Ok(at(0)));
    assert_eq!(m.bump(16, 8), Some(at(16)));
    assert_eq!(m.bump(1, 64), Some(at(64)));
    assert_eq!(m.bump(BYTES_IN_BLOCK - 65, 1), Some(at(65)));
    assert_eq!(m.bump(1, 1), None);
}

#[test]
fn allocations_are_aligned() {
    let mut s = space(8);
    let mut m = ImmixMutatorLocal::new(0);
    let aligns = [1usize, 2, 4, 8, 16, 64, 256, 1024, 4096, 32768];
    for (i, align) in aligns.iter().cycle().take(60).enumerate() {
        let size = 1 + (i * 37) % 700;
        let a = m.allocate(&mut s, size, *align).unwrap();
        assert_eq!(a.as_usize() % align, 0);
        assert!(s.contains(a));
        assert!(s.contains(a.plus(size - 1)));
        assert_eq!(block_of(a), block_of(a.plus(size - 1)));
    }
}

#[test]
fn allocations_do_not_overlap() {
    let mut s = space(16);
    let mut m = ImmixMutatorLocal::new(0);
    let mut ranges: Vec<(usize, usize)> = Vec::new();
    let mut seed: usize = 12345;
    for _ in 0..400 {
        seed = seed.wrapping_mul(1103515245).wrapping_add(12345) % (1 << 31);
        let size = 1 + seed % 3000;
        let align = 1usize << (seed % 7);
        match m.allocate(&mut s, size, align) {
            Ok(a) => ranges.push((a.as_usize(), a.as_usize() + size)),
            Err(e) => {
                assert_eq!(e, HeapError::OutOfBlocks);
                break;
            }
        }
    }
    assert!(ranges.len() > 100);
    ranges.sort();
    for w in ranges.windows(2) {
        assert!(w[0].1 <= w[1].0);
    }
    assert!(ranges[0].0 >= START);
    assert!(ranges[ranges.len() - 1].1 <= START + 16 * BYTES_IN_BLOCK);
}

#[test]
fn two_mutators_never_share_a_block() {
    let mut s = space(8);
    let mut m1 = ImmixMutatorLocal::new(1);
    let mut m2 = ImmixMutatorLocal::new(2);
    let mut blocks1 = Vec::new();
    let mut blocks2 = Vec::new();
    for i in 0..40 {
        let a = m1.allocate(&mut s, 3000, 8).unwrap();
        blocks1.push(block_of(a));
        if i % 2 == 0 {
            let b = m2.allocate(&mut s, 5000, 16).unwrap();
            blocks2.push(block_of(b));
        }
    }
    for b in &blocks1 {
        assert!(!blocks2.contains(b));
    }
}

#[test]
fn the_largest_object_fits_a_fresh_block() {
    let mut s = space(2);
    let mut m = ImmixMutatorLocal::new(0);
    assert_eq!(m.allocate(&mut s, MAX_IMMIX_OBJECT, 32768), Ok(at(0)));
    assert_eq!(m.allocate(&mut s, MAX_IMMIX_OBJECT, 32768), Ok(at(BYTES_IN_BLOCK)));
}

#[test]
fn out_of_blocks_when_the_space_is_used_up() {
    let mut s = space(2);
    let mut m = ImmixMutatorLocal::new(0);
    assert!(m.allocate(&mut s, MAX_IMMIX_OBJECT, 8).is_ok());
    assert!(m.allocate(&mut s, MAX_IMMIX_OBJECT, 8).is_ok());
    assert_eq!(m.allocate(&mut s, MAX_IMMIX_OBJECT, 8), Err(HeapError::OutOfBlocks));
    assert!(!m.has_block());
    assert_eq!(m.allocate(&mut s, 1, 1), Err(HeapError::OutOfBlocks));
}

#[test]
fn out_of_blocks_in_a_space_without_blocks() {
    let mut s = space(0);
    let mut m = ImmixMutatorLocal::new(0);
    assert_eq!(m.allocate(&mut s, 8, 8), Err(HeapError::OutOfBlocks));
    assert_eq!(m.try_alloc_from_local(&mut s, 8, 8), Err(HeapError::OutOfBlocks));
}

#[test]
fn allocation_skips_the_lines_that_hold_live_objects() {
    let mut s = space(2);
    s.mark_object(at(2 * BYTES_IN_LINE + 8)).unwrap();
    s.sweep();
    let mut m = ImmixMutatorLocal::new(0);
    assert_eq!(m.allocate(&mut s, 16, 8), Ok(at(0)));
    assert_eq!(m.allocate(&mut s, 400, 8), Ok(at(16)));
    assert_eq!(m.allocate(&mut s, 100, 8), Ok(at(4 * BYTES_IN_LINE)));
    assert_eq!(m.allocate(&mut s, 100, 8), Ok(at(4 * BYTES_IN_LINE + 104)));
}

#[test]
fn allocation_takes_the_first_run_that_is_long_enough() {
    let mut s = space(2);
    for l in [1usize, 4, 9] {
        s.mark_object(at(l * BYTES_IN_LINE)).unwrap();
    }
    s.sweep();
    let mut m = ImmixMutatorLocal::new(0);
    assert_eq!(m.allocate(&mut s, 700, 8), Ok(at(6 * BYTES_IN_LINE)));
    assert_eq!(m.allocate(&mut s, 60, 8), Ok(at(6 * BYTES_IN_LINE + 704)));
    assert_eq!(m.allocate(&mut s, 200, 8), Ok(at(11 * BYTES_IN_LINE)));
}

#[test]
fn allocation_moves_on_where_no_run_of_the_block_fits() {
    let mut s = space(2);
    for l in (0..128).step_by(4) {
        s.mark_object(at(l * BYTES_IN_LINE)).unwrap();
    }
    s.sweep();
    assert_eq!(s.block_state(0), BlockMark::Usable);
    let mut m = ImmixMutatorLocal::new(0);
    assert_eq!(m.allocate(&mut s, 600, 8), Ok(at(BYTES_IN_BLOCK)));
    assert_eq!(s.block_state(0), BlockMark::Usable);
    let mut n = ImmixMutatorLocal::new(1);
    assert_eq!(n.allocate(&mut s, 8, 8), Err(HeapError::OutOfBlocks));
}

#[test]
fn alignment_beyond_a_line_is_honoured_in_a_run() {
    let mut s = space(1);
    s.mark_object(at(0)).unwrap();
    s.sweep();
    let mut m = ImmixMutatorLocal::new(0);
    assert_eq!(m.allocate(&mut s, 64, 1024), Ok(at(1024)));
    assert_eq!(m.allocate(&mut s, 64, 4096), Ok(at(4096)));
}

#[test]
fn the_slow_path_gives_up_the_rest_before_the_limit() {
    let mut s = space(2);
    s.mark_object(at(8 * BYTES_IN_LINE)).unwrap();
    s.sweep();
    let mut m = ImmixMutatorLocal::new(0);
    assert_eq!(m.allocate(&mut s, 16, 8), Ok(at(0)));
    assert_eq!(m.try_alloc_from_local(&mut s, 16, 8), Ok(at(10 * BYTES_IN_LINE)));
    assert_eq!(m.allocate(&mut s, 16, 8), Ok(at(10 * BYTES_IN_LINE + 16)));
}

#[test]
fn yieldpoint_state_machine() {
    let mut s = space(2);
    let mut m = ImmixMutatorLocal::new(0);
    m.allocate(&mut s, 64, 8).unwrap();
    assert!(!m.yieldpoint());
    m.resume();
    assert_eq!(m.state(), MutatorState::Running);
    m.request_yield();
    assert_eq!(m.state(), MutatorState::YieldRequested);
    assert!(m.yieldpoint());
    m.request_yield();
    assert_eq!(m.state(), MutatorState::YieldRequested);
    m.yieldpoint_slow(&mut s);
    assert_eq!(m.state(), MutatorState::Parked);
    assert!(!m.has_block());
    assert!(!m.yieldpoint());
    assert_eq!(s.block_state(0), BlockMark::Usable);
    m.request_yield();
    assert_eq!(m.state(), MutatorState::Parked);
    m.resume();
    assert_eq!(m.state(), MutatorState::Running);
    assert!(!m.yieldpoint());
}

#[test]
fn prepare_for_gc_returns_the_block() {
    let mut s = space(2);
    let mut m = ImmixMutatorLocal::new(0);
    m.allocate(&mut s, 64, 8).unwrap();
    assert_eq!(s.block_state(0), BlockMark::CurrentlyInUseByMutator);
    m.prepare_for_gc(&mut s);
    assert!(!m.has_block());
    assert_eq!(m.state(), MutatorState::Running);
    assert_eq!(s.block_state(0), BlockMark::Usable);
    s.sweep();
    assert_eq!(m.allocate(&mut s, 64, 8), Ok(at(0)));
}

#[test]
fn park_without_a_block() {
    let mut m = ImmixMutatorLocal::new(3);
    m.park();
    assert_eq!(m.state(), MutatorState::Parked);
    assert!(!m.has_block());
}
