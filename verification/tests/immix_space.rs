use immix_rust::common::Address;
use immix_rust::error::HeapError;
use immix_rust::heap::immix::immix_space::is_leasable;
use immix_rust::heap::immix::{
    check_layout, BlockMark, ImmixSpace, LineMark, BYTES_IN_BLOCK, BYTES_IN_LINE, LINES_IN_BLOCK,
    LOG_BYTES_IN_BLOCK, LOG_BYTES_IN_LINE, MARKS_IN_LINE, MAX_IMMIX_OBJECT,
};

const START: usize = 0x100_0000;

fn space(blocks: usize) -> ImmixSpace {
    ImmixSpace::new(Address::from_usize(START), blocks * BYTES_IN_BLOCK)
}

fn at(offset: usize) -> Address {
    Address::from_usize(START + offset)
}

#[test]
fn immix_constants() {
    assert_eq!(BYTES_IN_LINE, 256);
    assert_eq!(BYTES_IN_BLOCK, 32768);
    assert_eq!(LINES_IN_BLOCK, 128);
    assert_eq!(1usize << LOG_BYTES_IN_LINE, BYTES_IN_LINE);
    assert_eq!(1usize << LOG_BYTES_IN_BLOCK, BYTES_IN_BLOCK);
    assert_eq!(LINES_IN_BLOCK * BYTES_IN_LINE, BYTES_IN_BLOCK);
    assert_eq!(MARKS_IN_LINE * 8, BYTES_IN_LINE);
    assert_eq!(MAX_IMMIX_OBJECT, BYTES_IN_BLOCK - BYTES_IN_LINE);
}

#[test]
fn new_space_is_all_free() {
    let s = space(4);
    assert_eq!(s.start(), at(0));
    assert_eq!(s.n_blocks(), 4);
    assert_eq!(s.end(), at(4 * BYTES_IN_BLOCK));
    for b in 0..4 {
        assert_eq!(s.block_state(b), BlockMark::Unallocated);
    }
    for l in 0..4 * LINES_IN_BLOCK {
        assert_eq!(s.line_state(l), LineMark::Free);
    }
    assert!(!s.test_mark(at(0)));
    assert!(!s.test_mark(at(4 * BYTES_IN_BLOCK - 8)));
}

#[test]
fn new_space_drops_a_partial_block() {
    let s = ImmixSpace::new(Address::from_usize(START), 3 * BYTES_IN_BLOCK + 100);
    assert_eq!(s.n_blocks(), 3);
    let t = ImmixSpace::new(Address::from_usize(START), BYTES_IN_BLOCK - 1);
    assert_eq!(t.n_blocks(), 0);
    assert_eq!(t.end(), t.start());
}

#[test]
fn contains_is_the_half_open_range() {
    let s = space(2);
    assert!(s.contains(at(0)));
    assert!(s.contains(at(2 * BYTES_IN_BLOCK - 1)));
    assert!(!s.contains(at(2 * BYTES_IN_BLOCK)));
    assert!(!s.contains(Address::from_usize(START - 1)));
    assert!(!s.contains(Address::zero()));
}

#[test]
fn blocks_are_leased_in_address_order() {
    let mut s = space(3);
    let b0 = s.get_next_usable_block(1).unwrap();
    assert_eq!(b0.index(), 0);
    assert_eq!(b0.start(), at(0));
    assert_eq!(s.block_state(0), BlockMark::CurrentlyInUseByMutator);
    let b1 = s.get_next_usable_block(2).unwrap();
    assert_eq!(b1.index(), 1);
    assert_eq!(b1.start(), at(BYTES_IN_BLOCK));
    let b2 = s.get_next_usable_block(1).unwrap();
    assert_eq!(b2.index(), 2);
    assert_eq!(s.get_next_usable_block(1).err(), Some(HeapError::OutOfBlocks));
    assert_eq!(s.block_state(1), BlockMark::CurrentlyInUseByMutator);
    assert_eq!(s.block_state(2), BlockMark::CurrentlyInUseByMutator);
}

#[test]
fn out_of_blocks_in_an_empty_space() {
    let mut s = space(0);
    assert_eq!(s.get_next_usable_block(0).err(), Some(HeapError::OutOfBlocks));
}

#[test]
fn a_returned_block_is_not_leased_again_before_the_sweep() {
    let mut s = space(2);
    let b0 = s.get_next_usable_block(1).unwrap();
    s.return_used_block(b0);
    assert_eq!(s.block_state(0), BlockMark::Usable);
    let b = s.get_next_usable_block(1).unwrap();
    assert_eq!(b.index(), 1);
    s.return_used_block(b);
    assert_eq!(s.get_next_usable_block(1).err(), Some(HeapError::OutOfBlocks));
    s.sweep();
    assert_eq!(s.block_state(0), BlockMark::Unallocated);
    assert_eq!(s.get_next_usable_block(1).unwrap().index(), 0);
}

#[test]
fn leasable_states() {
    assert!(is_leasable(BlockMark::Usable));
    assert!(is_leasable(BlockMark::Unallocated));
    assert!(!is_leasable(BlockMark::Full));
    assert!(!is_leasable(BlockMark::CurrentlyInUseByMutator));
}

#[test]
fn mark_object_tells_the_first_marker() {
    let mut s = space(1);
    assert_eq!(s.mark_object(at(64)), Ok(true));
    assert_eq!(s.mark_object(at(64)), Ok(false));
    assert!(s.test_mark(at(64)));
    assert!(!s.test_mark(at(72)));
    assert!(!s.test_mark(at(56)));
    assert_eq!(s.mark_object(at(BYTES_IN_BLOCK)), Err(HeapError::OutOfCoverage));
    assert_eq!(s.mark_object(Address::from_usize(START - 8)), Err(HeapError::OutOfCoverage));
    assert!(!s.test_mark(at(BYTES_IN_BLOCK)));
}

#[test]
fn sweep_marks_the_line_of_an_object_and_the_line_after_it() {
    let mut s = space(2);
    s.mark_object(at(2 * BYTES_IN_LINE + 16)).unwrap();
    s.sweep();
    assert_eq!(s.line_state(0), LineMark::Free);
    assert_eq!(s.line_state(1), LineMark::Free);
    assert_eq!(s.line_state(2), LineMark::Marked);
    assert_eq!(s.line_state(3), LineMark::ConservativelyMarked);
    assert_eq!(s.line_state(4), LineMark::Free);
    assert_eq!(s.block_state(0), BlockMark::Usable);
    assert_eq!(s.block_state(1), BlockMark::Unallocated);
    assert!(s.test_mark(at(2 * BYTES_IN_LINE + 16)));
}

#[test]
fn sweep_prefers_marked_over_conservatively_marked() {
    let mut s = space(1);
    s.mark_object(at(5 * BYTES_IN_LINE)).unwrap();
    s.mark_object(at(6 * BYTES_IN_LINE + 248)).unwrap();
    s.sweep();
    assert_eq!(s.line_state(5), LineMark::Marked);
    assert_eq!(s.line_state(6), LineMark::Marked);
    assert_eq!(s.line_state(7), LineMark::ConservativelyMarked);
    assert_eq!(s.line_state(8), LineMark::Free);
}

#[test]
fn conservative_marking_stays_within_the_block() {
    let mut s = space(2);
    s.mark_object(at(BYTES_IN_BLOCK - 8)).unwrap();
    s.sweep();
    assert_eq!(s.line_state(LINES_IN_BLOCK - 1), LineMark::Marked);
    assert_eq!(s.line_state(LINES_IN_BLOCK), LineMark::Free);
    assert_eq!(s.block_state(0), BlockMark::Usable);
    assert_eq!(s.block_state(1), BlockMark::Unallocated);
}

#[test]
fn sweep_finds_a_full_block() {
    let mut s = space(2);
    for l in (0..LINES_IN_BLOCK).step_by(2) {
        s.mark_object(at(l * BYTES_IN_LINE)).unwrap();
    }
    s.sweep();
    for l in 0..LINES_IN_BLOCK {
        let expected = if l % 2 == 0 { LineMark::Marked } else { LineMark::ConservativelyMarked };
        assert_eq!(s.line_state(l), expected);
    }
    assert_eq!(s.block_state(0), BlockMark::Full);
    assert_eq!(s.block_state(1), BlockMark::Unallocated);
    let b = s.get_next_usable_block(0).unwrap();
    assert_eq!(b.index(), 1);
}

#[test]
fn return_of_a_block_without_free_lines_makes_it_full() {
    let mut s = space(2);
    for l in (0..LINES_IN_BLOCK).step_by(2) {
        s.mark_object(at(BYTES_IN_BLOCK + l * BYTES_IN_LINE)).unwrap();
    }
    s.mark_object(at(0)).unwrap();
    s.sweep();
    assert_eq!(s.block_state(0), BlockMark::Usable);
    assert_eq!(s.block_state(1), BlockMark::Full);
    let b = s.get_next_usable_block(0).unwrap();
    assert_eq!(b.index(), 0);
    s.return_used_block(b);
    assert_eq!(s.block_state(0), BlockMark::Usable);
}

#[test]
fn next_available_and_unavailable_lines() {
    let mut s = space(1);
    s.mark_object(at(0)).unwrap();
    s.mark_object(at(10 * BYTES_IN_LINE)).unwrap();
    s.sweep();
    let b = s.get_next_usable_block(0).unwrap();
    assert_eq!(s.get_next_available_line(&b, 0), Some(2));
    assert_eq!(s.get_next_available_line(&b, 2), Some(2));
    assert_eq!(s.get_next_available_line(&b, 9), Some(9));
    assert_eq!(s.get_next_available_line(&b, 10), Some(12));
    assert_eq!(s.get_next_available_line(&b, 127), Some(127));
    assert_eq!(s.get_next_available_line(&b, 128), None);
    assert_eq!(s.get_next_available_line(&b, 500), None);
    assert_eq!(s.get_next_unavailable_line(&b, 2), 10);
    assert_eq!(s.get_next_unavailable_line(&b, 0), 0);
    assert_eq!(s.get_next_unavailable_line(&b, 12), 128);
    assert_eq!(s.get_next_unavailable_line(&b, 128), 128);
}

#[test]
fn no_available_line_in_a_full_block() {
    let mut s = space(1);
    for l in (0..LINES_IN_BLOCK).step_by(2) {
        s.mark_object(at(l * BYTES_IN_LINE)).unwrap();
    }
    s.sweep();
    assert_eq!(s.get_next_usable_block(0).err(), Some(HeapError::OutOfBlocks));
}

#[test]
fn prepare_for_gc_clears_lines_and_marks() {
    let mut s = space(2);
    s.mark_object(at(300)).unwrap();
    s.sweep();
    assert_eq!(s.line_state(1), LineMark::Marked);
    let b = s.get_next_usable_block(0).unwrap();
    s.prepare_for_gc();
    assert_eq!(s.line_state(1), LineMark::Free);
    assert_eq!(s.line_state(2), LineMark::Free);
    assert!(!s.test_mark(at(300)));
    assert_eq!(s.block_state(0), BlockMark::CurrentlyInUseByMutator);
    assert_eq!(s.block_state(1), BlockMark::Unallocated);
    s.return_used_block(b);
}

#[test]
fn sweep_twice_changes_nothing() {
    let mut s = space(2);
    s.mark_object(at(1000)).unwrap();
    s.mark_object(at(BYTES_IN_BLOCK + 5000)).unwrap();
    s.sweep();
    let lines: Vec<LineMark> = (0..2 * LINES_IN_BLOCK).map(|l| s.line_state(l)).collect();
    let blocks: Vec<BlockMark> = (0..2).map(|b| s.block_state(b)).collect();
    s.sweep();
    let lines2: Vec<LineMark> = (0..2 * LINES_IN_BLOCK).map(|l| s.line_state(l)).collect();
    let blocks2: Vec<BlockMark> = (0..2).map(|b| s.block_state(b)).collect();
    assert_eq!(lines, lines2);
    assert_eq!(blocks, blocks2);
}

#[test]
fn immix_layout_check() {
    assert_eq!(check_layout(16, 8), Ok(()));
    assert_eq!(check_layout(1, 1), Ok(()));
    assert_eq!(check_layout(MAX_IMMIX_OBJECT, BYTES_IN_BLOCK), Ok(()));
    assert_eq!(check_layout(0, 8), Err(HeapError::InvalidLayout));
    assert_eq!(check_layout(MAX_IMMIX_OBJECT + 1, 8), Err(HeapError::InvalidLayout));
    assert_eq!(check_layout(16, 0), Err(HeapError::InvalidLayout));
    assert_eq!(check_layout(16, 12), Err(HeapError::InvalidLayout));
    assert_eq!(check_layout(16, 2 * BYTES_IN_BLOCK), Err(HeapError::InvalidLayout));
}

#[test]
fn leasable_blocks_are_counted_by_state() {
    let mut s = space(4);
    assert_eq!(s.leasable_blocks(), 4);
    let b0 = s.get_next_usable_block(0).unwrap();
    assert_eq!(s.leasable_blocks(), 3);
    s.return_used_block(b0);
    assert_eq!(s.leasable_blocks(), 4);
    for l in (0..LINES_IN_BLOCK).step_by(2) {
        s.mark_object(at(2 * BYTES_IN_BLOCK + l * BYTES_IN_LINE)).unwrap();
    }
    s.sweep();
    assert_eq!(s.leasable_blocks(), 3);
    assert_eq!(space(0).leasable_blocks(), 0);
}
