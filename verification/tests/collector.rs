use std::collections::HashMap;

use immix_rust::common::{Address, ObjectReference};
use immix_rust::error::HeapError;
use immix_rust::heap::freelist::{FreeListNode, FreeListSpace, LargeAllocAction, NodeMark};
use immix_rust::heap::gc::tracer::{TraceStep, Tracer};
use immix_rust::heap::gc::{check_progress, GcCoordinator, GcPhase};
use immix_rust::heap::immix::immix_mutator::MutatorState;
use immix_rust::heap::immix::{
    BlockMark, ImmixSpace, LineMark, BYTES_IN_BLOCK, BYTES_IN_LINE, LINES_IN_BLOCK,
};
use immix_rust::{Mutator, GC};

const IMMIX_START: usize = 0x100_0000;
const IMMIX_SIZE: usize = 2 << 20;
const LO_SIZE: usize = 1 << 20;
const HOST: usize = 0x4000_0000;

type Graph = HashMap<usize, Vec<usize>>;

fn new_gc(lo_size: usize, threads: usize) -> GC {
    GC::new(Address::from_usize(IMMIX_START), IMMIX_SIZE, lo_size, threads)
}

fn obj(a: usize) -> ObjectReference {
    Address::from_usize(a).to_object_reference()
}

fn refs(addrs: &[usize]) -> Vec<ObjectReference> {
    addrs.iter().map(|a| obj(*a)).collect()
}

fn host(n: usize) -> Address {
    Address::from_usize(HOST + n * 0x10_0000)
}

/// Runs the trace with `workers` workers that take turns, each scanning one
/// object at a time. Returns how often each object's slots were read.
fn run_trace(gc: &mut GC, tracer: &mut Tracer, graph: &Graph, workers: usize) -> HashMap<usize, usize> {
    let mut scans: HashMap<usize, usize> = HashMap::new();
    let mut busy: Vec<Option<ObjectReference>> = vec![None; workers];
    loop {
        let mut progress = false;
        for w in 0..workers {
            match busy[w].take() {
                Some(o) => {
                    let slots = refs(&graph[&o.value()]);
                    assert!(tracer.push_slots(o, &slots));
                    progress = true;
                }
                None => match gc.trace_next(tracer).unwrap() {
                    TraceStep::Scan(o) => {
                        *scans.entry(o.value()).or_insert(0) += 1;
                        busy[w] = Some(o);
                        progress = true;
                    }
                    TraceStep::Wait => {}
                    TraceStep::Done => {}
                },
            }
        }
        if tracer.is_finished() {
            break;
        }
        assert!(progress);
    }
    assert_eq!(gc.trace_next(tracer), Ok(TraceStep::Done));
    scans
}

/// One whole collection: every mutator parks with its roots, the trace
/// runs, the spaces are swept, the mutators run again.
fn collect(
    gc: &mut GC,
    mutators: &mut [Mutator],
    roots: &[Vec<usize>],
    graph: &Graph,
    workers: usize,
) -> (Vec<FreeListNode>, HashMap<usize, usize>) {
    assert!(gc.trigger_gc());
    assert!(!gc.trigger_gc());
    let n = mutators.len();
    for (i, m) in mutators.iter_mut().enumerate() {
        assert!(gc.yieldpoint(m));
        let all = gc.yieldpoint_slow(m, &refs(&roots[i]));
        assert_eq!(all, i + 1 == n);
        assert_eq!(m.state(), MutatorState::Parked);
        assert!(!gc.resume(m));
    }
    let mut tracer = gc.start_collection();
    assert_eq!(gc.coordinator().phase(), GcPhase::Marking);
    let scans = run_trace(gc, &mut tracer, graph, workers);
    let reclaimed = gc.finish_collection(&tracer);
    assert_eq!(gc.coordinator().phase(), GcPhase::Idle);
    for m in mutators.iter_mut() {
        assert!(gc.resume(m));
        assert_eq!(m.state(), MutatorState::Running);
        assert!(!gc.yieldpoint(m));
    }
    (reclaimed, scans)
}

#[test]
fn a_new_collector_is_empty_and_idle() {
    let gc = new_gc(LO_SIZE, 8);
    assert_eq!(gc.immix_space().start(), Address::from_usize(IMMIX_START));
    assert_eq!(gc.immix_space().n_blocks(), 64);
    assert_eq!(gc.lo_space().size(), LO_SIZE);
    assert_eq!(gc.lo_space().used_bytes(), 0);
    assert_eq!(gc.coordinator().phase(), GcPhase::Idle);
    assert_eq!(gc.coordinator().gc_threads(), 8);
    assert_eq!(gc.coordinator().mutators(), 0);
    assert!(gc.can_add_mutator());
}

#[test]
fn mutators_get_names_of_their_own() {
    let mut gc = new_gc(LO_SIZE, 1);
    let a = gc.new_mutator();
    let b = gc.new_mutator();
    let c = gc.new_mutator();
    assert_eq!(a.id(), 0);
    assert_eq!(b.id(), 1);
    assert_eq!(c.id(), 2);
    assert_eq!(gc.coordinator().mutators(), 3);
    assert_eq!(a.state(), MutatorState::Running);
    assert!(!gc.drop_mutator(b));
    assert_eq!(gc.coordinator().mutators(), 2);
    let d = gc.new_mutator();
    assert_eq!(d.id(), 3);
}

#[test]
fn a_mutator_made_during_a_stop_starts_parked() {
    let mut gc = new_gc(LO_SIZE, 1);
    let mut a = gc.new_mutator();
    assert!(gc.trigger_gc());
    let b = gc.new_mutator();
    assert_eq!(b.state(), MutatorState::Parked);
    assert_eq!(gc.coordinator().parked(), 1);
    assert!(gc.yieldpoint(&mut a));
    assert!(gc.yieldpoint_slow(&mut a, &Vec::new()));
    assert!(gc.coordinator().all_parked());
}

#[test]
fn dropping_the_last_running_mutator_lets_the_collection_start() {
    let mut gc = new_gc(LO_SIZE, 1);
    let mut a = gc.new_mutator();
    let mut b = gc.new_mutator();
    gc.allocate(&mut b, 64, 8).unwrap();
    assert_eq!(gc.immix_space().block_state(0), BlockMark::CurrentlyInUseByMutator);
    gc.trigger_gc();
    assert!(gc.yieldpoint(&mut a));
    assert!(!gc.yieldpoint_slow(&mut a, &Vec::new()));
    assert!(gc.drop_mutator(b));
    assert_eq!(gc.immix_space().block_state(0), BlockMark::Usable);
    assert!(gc.coordinator().all_parked());
}

#[test]
fn large_allocation_exceeds_line_capacity() {
    let mut gc = new_gc(LO_SIZE, 1);
    let m = gc.new_mutator();
    assert_eq!(gc.alloc_large_action(&m, 65536, 0), LargeAllocAction::Place);
    let r = gc.alloc_large(65536, host(0)).unwrap();
    assert_eq!(r.value(), HOST);
    assert!(!gc.immix_space().contains(r.to_address()));
    assert_eq!(r.value() % 8, 0);
    assert_eq!(gc.lo_space().used_bytes(), 65536);
    assert!(gc.lo_space().contains(r.to_address()));
    assert_eq!(gc.lo_space().current_nodes()[0].align(), 8);
    assert_eq!(gc.lo_space().current_nodes()[0].mark(), NodeMark::FreshAlloc);
}

#[test]
fn large_allocation_out_of_memory() {
    let mut gc = new_gc(LO_SIZE, 1);
    let m = gc.new_mutator();
    for i in 0..64 {
        assert!(gc.alloc_large(16 << 10, host(i)).is_ok());
    }
    assert_eq!(gc.lo_space().used_bytes(), LO_SIZE);
    assert_eq!(gc.alloc_large(16 << 10, host(64)), Err(HeapError::OutOfMemory));
    assert_eq!(gc.alloc_large(1, host(64)), Err(HeapError::OutOfMemory));
    assert_eq!(gc.lo_space().used_bytes(), LO_SIZE);
    assert_eq!(gc.alloc_large_action(&m, 1, 0), LargeAllocAction::Collect);
    assert_eq!(gc.alloc_large_action(&m, 1, 2), LargeAllocAction::Fail);
}

#[test]
fn large_allocation_needs_an_aligned_host_address() {
    let mut gc = new_gc(LO_SIZE, 1);
    assert_eq!(
        gc.alloc_large(64, Address::from_usize(HOST + 4)),
        Err(HeapError::OutOfMemory)
    );
    assert_eq!(gc.alloc_large(64, Address::zero()), Err(HeapError::OutOfMemory));
    assert_eq!(gc.lo_space().used_bytes(), 0);
}

#[test]
fn gc_reclaims_unreachable_objects() {
    let mut gc = new_gc(2 << 20, 1);
    let mut mutators = vec![gc.new_mutator()];
    let mut graph = Graph::new();
    for i in 0..100 {
        let r = gc.alloc_large(16 << 10, host(i)).unwrap();
        graph.insert(r.value(), Vec::new());
    }
    assert_eq!(gc.lo_space().used_bytes(), 100 * (16 << 10));
    let (reclaimed, scans) = collect(&mut gc, &mut mutators, &[Vec::new()], &graph, 1);
    assert_eq!(reclaimed.len(), 100);
    assert_eq!(gc.lo_space().used_bytes(), 0);
    assert_eq!(gc.lo_space().current_nodes().len(), 0);
    assert!(scans.is_empty());
    let mut starts: Vec<usize> = reclaimed.iter().map(|n| n.start().as_usize()).collect();
    starts.sort();
    let mut expected: Vec<usize> = graph.keys().cloned().collect();
    expected.sort();
    assert_eq!(starts, expected);
    for n in &reclaimed {
        assert_eq!(n.size(), 16 << 10);
    }
}

#[test]
fn gc_survives_live_objects() {
    let mut gc = new_gc(LO_SIZE, 1);
    let mut mutators = vec![gc.new_mutator()];
    let mut nodes = Vec::new();
    for _ in 0..1000 {
        nodes.push(gc.allocate(&mut mutators[0], 16, 8).unwrap().value());
    }
    let mut graph = Graph::new();
    for i in 0..1000 {
        let next = if i + 1 < 1000 { nodes[i + 1] } else { 0 };
        graph.insert(nodes[i], vec![next, 0]);
    }
    let (reclaimed, scans) = collect(&mut gc, &mut mutators, &[vec![nodes[0]]], &graph, 1);
    assert!(reclaimed.is_empty());
    assert_eq!(scans.len(), 1000);
    for n in &nodes {
        assert!(gc.immix_space().test_mark(Address::from_usize(*n)));
        assert_eq!(scans[n], 1);
        let line = (n - IMMIX_START) / BYTES_IN_LINE;
        assert_eq!(gc.immix_space().line_state(line), LineMark::Marked);
    }
    let last_line = (nodes[999] - IMMIX_START) / BYTES_IN_LINE;
    assert_eq!(gc.immix_space().line_state(last_line + 1), LineMark::ConservativelyMarked);
    assert_eq!(gc.immix_space().line_state(last_line + 2), LineMark::Free);
    assert_eq!(gc.immix_space().block_state(0), BlockMark::Usable);
    let fresh = gc.allocate(&mut mutators[0], 16, 8).unwrap().value();
    assert_eq!(fresh, IMMIX_START + (last_line + 2) * BYTES_IN_LINE);
    for n in &nodes {
        assert!(fresh >= n + 16 || fresh + 16 <= *n);
    }
}

#[test]
fn gc_frees_the_lines_of_dead_objects() {
    let mut gc = new_gc(LO_SIZE, 1);
    let mut mutators = vec![gc.new_mutator()];
    let mut graph = Graph::new();
    let mut all = Vec::new();
    for _ in 0..600 {
        let a = gc.allocate(&mut mutators[0], 128, 8).unwrap().value();
        graph.insert(a, Vec::new());
        all.push(a);
    }
    let live = all[300];
    let (_, scans) = collect(&mut gc, &mut mutators, &[vec![live]], &graph, 1);
    assert_eq!(scans.len(), 1);
    for a in &all {
        assert_eq!(gc.immix_space().test_mark(Address::from_usize(*a)), *a == live);
    }
    let live_line = (live - IMMIX_START) / BYTES_IN_LINE;
    for l in 0..3 * LINES_IN_BLOCK {
        let expected = if l == live_line {
            LineMark::Marked
        } else if l == live_line + 1 {
            LineMark::ConservativelyMarked
        } else {
            LineMark::Free
        };
        assert_eq!(gc.immix_space().line_state(l), expected);
    }
    assert_eq!(gc.immix_space().block_state(0), BlockMark::Unallocated);
    assert_eq!(gc.immix_space().block_state(1), BlockMark::Usable);
    assert_eq!(gc.allocate(&mut mutators[0], 128, 8).unwrap().value(), all[0]);
}

#[test]
fn parallel_tracing_correctness() {
    let mut gc = new_gc(LO_SIZE, 8);
    let mut mutators = vec![gc.new_mutator()];
    let mut nodes = Vec::new();
    for _ in 0..10000 {
        nodes.push(gc.allocate(&mut mutators[0], 40, 8).unwrap().value());
    }
    let mut graph = Graph::new();
    for i in 0..10000usize {
        let mut slots = Vec::new();
        for k in 1..=4usize {
            slots.push(if i < 9999 { nodes[(i * 2 + k).min(9999)] } else { 0 });
        }
        graph.insert(nodes[i], slots);
    }
    let workers = gc.coordinator().gc_threads();
    assert_eq!(workers, 8);
    let (_, scans) = collect(&mut gc, &mut mutators, &[vec![nodes[0]]], &graph, workers);
    assert_eq!(scans.len(), 10000);
    let mut total = 0;
    for n in &nodes {
        assert!(gc.immix_space().test_mark(Address::from_usize(*n)));
        assert_eq!(scans[n], 1);
        total += scans[n];
    }
    assert_eq!(total, 10000);
}

#[test]
fn each_survivor_is_scanned_once_in_a_graph_with_cycles() {
    let mut gc = new_gc(LO_SIZE, 3);
    let mut mutators = vec![gc.new_mutator()];
    let a = gc.allocate(&mut mutators[0], 24, 8).unwrap().value();
    let b = gc.allocate(&mut mutators[0], 24, 8).unwrap().value();
    let c = gc.allocate(&mut mutators[0], 24, 8).unwrap().value();
    let d = gc.allocate(&mut mutators[0], 24, 8).unwrap().value();
    let big = gc.alloc_large(4096, host(0)).unwrap().value();
    let lost = gc.alloc_large(4096, host(1)).unwrap().value();
    let mut graph = Graph::new();
    graph.insert(a, vec![b, c, a]);
    graph.insert(b, vec![c, big]);
    graph.insert(c, vec![a, 0, b]);
    graph.insert(d, vec![a, lost]);
    graph.insert(big, vec![a, big]);
    graph.insert(lost, vec![d]);
    let (reclaimed, scans) = collect(&mut gc, &mut mutators, &[vec![a, a, 0, c]], &graph, 3);
    let mut scanned: Vec<usize> = scans.keys().cloned().collect();
    scanned.sort();
    let mut expected = vec![a, b, c, big];
    expected.sort();
    assert_eq!(scanned, expected);
    for (_, count) in &scans {
        assert_eq!(*count, 1);
    }
    assert!(!gc.immix_space().test_mark(Address::from_usize(d)));
    assert_eq!(reclaimed.len(), 1);
    assert_eq!(reclaimed[0].start().as_usize(), lost);
    assert!(gc.lo_space().contains(Address::from_usize(big)));
    assert!(!gc.lo_space().contains(Address::from_usize(lost)));
    assert_eq!(gc.lo_space().used_bytes(), 4096);
    assert_eq!(gc.lo_space().current_nodes()[0].mark(), NodeMark::PrevLive);
}

#[test]
fn a_second_collection_takes_nothing() {
    let mut gc = new_gc(LO_SIZE, 2);
    let mut mutators = vec![gc.new_mutator(), gc.new_mutator()];
    let mut graph = Graph::new();
    let mut immix = Vec::new();
    for i in 0..500 {
        let m = i % 2;
        immix.push(gc.allocate(&mut mutators[m], 64 + (i % 5) * 8, 8).unwrap().value());
    }
    let mut large = Vec::new();
    for i in 0..10 {
        large.push(gc.alloc_large(1000 + i, host(i)).unwrap().value());
    }
    for (i, a) in immix.iter().enumerate() {
        graph.insert(*a, vec![immix[(i * 3) % 500], large[i % 10], 0]);
    }
    for (i, a) in large.iter().enumerate() {
        graph.insert(*a, vec![immix[i * 7]]);
    }
    let roots = vec![vec![immix[9]], vec![large[3], immix[200]]];
    let (first, scans1) = collect(&mut gc, &mut mutators, &roots, &graph, 2);
    assert!(!first.is_empty());
    let lines1: Vec<LineMark> =
        (0..64 * LINES_IN_BLOCK).map(|l| gc.immix_space().line_state(l)).collect();
    let blocks1: Vec<BlockMark> = (0..64).map(|b| gc.immix_space().block_state(b)).collect();
    let nodes1: Vec<FreeListNode> = gc.lo_space().current_nodes().iter().cloned().collect();
    let used1 = gc.lo_space().used_bytes();
    let marks1: Vec<bool> =
        immix.iter().map(|a| gc.immix_space().test_mark(Address::from_usize(*a))).collect();
    let (second, scans2) = collect(&mut gc, &mut mutators, &roots, &graph, 2);
    assert!(second.is_empty());
    let lines2: Vec<LineMark> =
        (0..64 * LINES_IN_BLOCK).map(|l| gc.immix_space().line_state(l)).collect();
    let blocks2: Vec<BlockMark> = (0..64).map(|b| gc.immix_space().block_state(b)).collect();
    let nodes2: Vec<FreeListNode> = gc.lo_space().current_nodes().iter().cloned().collect();
    let marks2: Vec<bool> =
        immix.iter().map(|a| gc.immix_space().test_mark(Address::from_usize(*a))).collect();
    assert_eq!(lines1, lines2);
    assert_eq!(blocks1, blocks2);
    assert_eq!(nodes1, nodes2);
    assert_eq!(marks1, marks2);
    assert_eq!(gc.lo_space().used_bytes(), used1);
    let mut s1: Vec<usize> = scans1.keys().cloned().collect();
    let mut s2: Vec<usize> = scans2.keys().cloned().collect();
    s1.sort();
    s2.sort();
    assert_eq!(s1, s2);
}

#[test]
fn allocation_after_a_collection_spares_the_survivors() {
    let mut gc = new_gc(LO_SIZE, 1);
    let mut mutators = vec![gc.new_mutator()];
    let mut graph = Graph::new();
    let mut all = Vec::new();
    for _ in 0..3000 {
        let a = gc.allocate(&mut mutators[0], 48, 16).unwrap().value();
        graph.insert(a, Vec::new());
        all.push(a);
    }
    let roots: Vec<usize> = all.iter().cloned().step_by(37).collect();
    collect(&mut gc, &mut mutators, &[roots.clone()], &graph, 1);
    let mut fresh = Vec::new();
    loop {
        match gc.allocate(&mut mutators[0], 48, 16) {
            Ok(r) => fresh.push(r.value()),
            Err(e) => {
                assert_eq!(e, HeapError::OutOfBlocks);
                break;
            }
        }
    }
    assert!(fresh.len() > 3000);
    let mut taken: Vec<(usize, bool)> = roots.iter().map(|a| (*a, true)).collect();
    taken.extend(fresh.iter().map(|a| (*a, false)));
    taken.sort();
    for w in taken.windows(2) {
        assert!(w[0].0 + 48 <= w[1].0);
    }
}

#[test]
fn out_of_blocks_then_collection_then_success() {
    let mut gc = GC::new(Address::from_usize(IMMIX_START), 2 * BYTES_IN_BLOCK, LO_SIZE, 1);
    let mut mutators = vec![gc.new_mutator()];
    let graph = Graph::new();
    let mut count = 0;
    while gc.allocate(&mut mutators[0], 1024, 8).is_ok() {
        count += 1;
    }
    assert_eq!(count, 64);
    assert_eq!(gc.allocate(&mut mutators[0], 1024, 8), Err(HeapError::OutOfBlocks));
    assert_eq!(gc.alloc_slow(&mut mutators[0], 1024, 8), Err(HeapError::OutOfBlocks));
    let (reclaimed, _) = collect(&mut gc, &mut mutators, &[Vec::new()], &graph, 1);
    assert!(reclaimed.is_empty());
    assert_eq!(gc.allocate(&mut mutators[0], 1024, 8), Ok(obj(IMMIX_START)));
    assert_eq!(gc.alloc_slow(&mut mutators[0], 1024, 8), Ok(obj(IMMIX_START + BYTES_IN_BLOCK)));
}

#[test]
fn heap_exhausted_after_a_collection_that_freed_nothing() {
    assert_eq!(check_progress(false, true), Err(HeapError::HeapExhausted));
    assert_eq!(check_progress(true, true), Ok(()));
    assert_eq!(check_progress(false, false), Ok(()));
    assert_eq!(check_progress(true, false), Ok(()));
}

#[test]
fn coordinator_protocol() {
    let mut c = GcCoordinator::init(4);
    assert_eq!(c.phase(), GcPhase::Idle);
    assert_eq!(c.gc_threads(), 4);
    assert!(!c.yield_requested());
    assert!(!c.register_mutator());
    assert!(!c.register_mutator());
    assert_eq!(c.mutators(), 2);
    assert!(c.trigger_gc());
    assert!(!c.trigger_gc());
    assert_eq!(c.phase(), GcPhase::StopRequested);
    assert!(c.yield_requested());
    assert!(!c.all_parked());
    assert!(!c.park(&refs(&[8, 0, 16])));
    assert_eq!(c.parked(), 1);
    assert!(c.register_mutator());
    assert_eq!(c.parked(), 2);
    assert!(c.park(&refs(&[24])));
    assert!(c.all_parked());
    let tracer = c.start_marking();
    assert_eq!(c.phase(), GcPhase::Marking);
    assert!(!tracer.is_finished());
    assert!(c.yield_requested());
    let done = Tracer::new(&Vec::new());
    assert!(done.is_finished());
    c.start_sweeping(&done);
    assert_eq!(c.phase(), GcPhase::Sweeping);
    assert!(!c.trigger_gc());
    c.resume();
    assert_eq!(c.phase(), GcPhase::Idle);
    assert!(!c.yield_requested());
    assert_eq!(c.parked(), 0);
    assert_eq!(c.mutators(), 3);
    assert!(!c.unregister_mutator());
    assert_eq!(c.mutators(), 2);
    assert!(c.trigger_gc());
}

#[test]
fn the_tracer_takes_the_last_root_first_and_skips_null() {
    let mut immix = ImmixSpace::new(Address::from_usize(IMMIX_START), BYTES_IN_BLOCK);
    let mut lo = FreeListSpace::new(LO_SIZE);
    let a = IMMIX_START + 64;
    let b = IMMIX_START + 128;
    let mut t = Tracer::new(&refs(&[0, a, 0, b, a]));
    assert_eq!(t.next(&mut immix, &mut lo), Ok(TraceStep::Scan(obj(a))));
    assert!(immix.test_mark(Address::from_usize(a)));
    assert_eq!(t.next(&mut immix, &mut lo), Ok(TraceStep::Scan(obj(b))));
    assert_eq!(t.next(&mut immix, &mut lo), Ok(TraceStep::Wait));
    assert!(!t.is_finished());
    assert!(!t.push_slots(obj(IMMIX_START + 256), &refs(&[a])));
    assert!(t.push_slots(obj(a), &refs(&[b, 0])));
    assert!(!t.push_slots(obj(a), &refs(&[b])));
    assert_eq!(t.next(&mut immix, &mut lo), Ok(TraceStep::Wait));
    assert!(t.push_slots(obj(b), &Vec::new()));
    assert!(t.is_finished());
    assert_eq!(t.next(&mut immix, &mut lo), Ok(TraceStep::Done));
}

#[test]
fn the_tracer_marks_large_objects_by_their_nodes() {
    let mut immix = ImmixSpace::new(Address::from_usize(IMMIX_START), BYTES_IN_BLOCK);
    let mut lo = FreeListSpace::new(LO_SIZE);
    lo.allocate(100, 8, host(0)).unwrap();
    lo.allocate(100, 8, host(1)).unwrap();
    let mut t = Tracer::new(&refs(&[host(1).as_usize()]));
    assert_eq!(t.next(&mut immix, &mut lo), Ok(TraceStep::Scan(obj(host(1).as_usize()))));
    assert!(lo.is_live(host(1)));
    assert!(!lo.is_live(host(0)));
    assert!(t.push_slots(obj(host(1).as_usize()), &refs(&[host(1).as_usize()])));
    assert_eq!(t.next(&mut immix, &mut lo), Ok(TraceStep::Done));
    assert!(t.is_finished());
}

#[test]
fn the_tracer_fails_on_a_reference_into_neither_space() {
    let mut immix = ImmixSpace::new(Address::from_usize(IMMIX_START), BYTES_IN_BLOCK);
    let mut lo = FreeListSpace::new(LO_SIZE);
    let a = IMMIX_START + 64;
    let mut t = Tracer::new(&refs(&[a, 0x7000_0000]));
    assert_eq!(t.next(&mut immix, &mut lo), Err(HeapError::OutOfCoverage));
    assert!(!immix.test_mark(Address::from_usize(a)));
    assert_eq!(t.next(&mut immix, &mut lo), Ok(TraceStep::Scan(obj(a))));
}

#[test]
fn yieldpoint_liveness() {
    let mut gc = new_gc(LO_SIZE, 1);
    let mut m1 = gc.new_mutator();
    let mut m2 = gc.new_mutator();
    assert!(!gc.yieldpoint(&mut m1));
    assert!(gc.trigger_gc());
    assert!(gc.coordinator().yield_requested());
    assert!(gc.yieldpoint(&mut m1));
    assert!(gc.yieldpoint(&mut m1));
    assert!(!gc.yieldpoint_slow(&mut m1, &Vec::new()));
    assert_eq!(m1.state(), MutatorState::Parked);
    assert!(!gc.yieldpoint(&mut m1));
    assert!(gc.yieldpoint(&mut m2));
    assert!(gc.yieldpoint_slow(&mut m2, &Vec::new()));
    let mut tracer = gc.start_collection();
    assert_eq!(gc.trace_next(&mut tracer), Ok(TraceStep::Done));
    assert!(gc.finish_collection(&tracer).is_empty());
    assert!(!gc.coordinator().yield_requested());
    assert!(gc.resume(&mut m1));
    assert!(gc.resume(&mut m2));
    assert_eq!(m1.state(), MutatorState::Running);
    assert!(!gc.yieldpoint(&mut m1));
}
