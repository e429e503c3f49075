//! The collector as one value: the two spaces and the coordinator, with
//! the entry points that a runtime calls.
//!
//! The value is handed to every entry point. A runtime that cannot pass it
//! around keeps one for the process and guards it with a lock. Memory is
//! the runtime's business: it reserves the range of the Immix space, gets
//! the bytes of large objects from the host allocator and gives back those
//! of the nodes that a collection reclaims.

use vstd::prelude::*;
use vstd::arithmetic::power2::is_pow2;
use vstd::layout::valid_layout;
use crate::common::{Address, ObjectReference};
use crate::error::HeapError;
use crate::heap::freelist::{
    alloc_large,
    dead_nodes,
    live_nodes,
    no_live_nodes,
    node_views,
    swept,
    total_size,
    FreeListNode,
    FreeListSpace,
    FreeListView,
    LargeAllocAction,
    NodeMark,
    large_alloc_action,
};
use crate::heap::gc::{CoordinatorView, GcCoordinator, GcPhase};
use crate::heap::gc::collection::lemma_swept_nodes;
use crate::heap::gc::graph::{housed, ObjectGraph};
use crate::heap::gc::tracer::lemma_trace_start;
use crate::heap::gc::tracer::{next_spec, non_null, refs_of, TraceStep, Tracer, TracerView};
use crate::heap::immix::{
    BlockMark,
    LineMark,
    BYTES_IN_BLOCK,
    LINES_IN_BLOCK,
    MARKS_IN_LINE,
    MAX_IMMIX_OBJECT,
};
use crate::heap::immix::immix_mutator::{
    byte_range,
    ImmixMutatorLocal,
    MutatorState,
    MutatorView,
};
use crate::heap::immix::immix_space::{ImmixSpace, ImmixSpaceView};

verus! {

/// The alignment of every large object.
pub const LARGE_OBJECT_ALIGN: usize = 8;

pub struct GC {
    immix_space: ImmixSpace,
    lo_space: FreeListSpace,
    coordinator: GcCoordinator,
    next_mutator: usize,
}

/// What the collector is, as plain values.
pub struct GcView {
    pub immix: ImmixSpaceView,
    pub lo: FreeListView,
    pub coordinator: CoordinatorView,
    /// The name that the next mutator gets.
    pub next_mutator: nat,
}

impl View for GC {
    type V = GcView;

    closed spec fn view(&self) -> GcView {
        GcView {
            immix: self.immix_space@,
            lo: self.lo_space@,
            coordinator: self.coordinator@,
            next_mutator: self.next_mutator as nat,
        }
    }
}

impl GC {
    /// The invariant of the collector.
    pub closed spec fn wf(&self) -> bool {
        &&& self.immix_space.wf()
        &&& self.lo_space@.wf()
        &&& self.coordinator@.wf()
        &&& self.coordinator@.phase != GcPhase::Marking ==> no_live_nodes(self.lo_space@.nodes)
    }

    /// The Immix space of the collector, for the contracts of the mutators.
    pub closed spec fn spec_immix_space(&self) -> &ImmixSpace {
        &self.immix_space
    }

    /// A well-formed collector has well-formed parts.
    pub proof fn lemma_wf(&self)
        requires
            self.wf(),
        ensures
            self.spec_immix_space().wf(),
            self.spec_immix_space()@ == self@.immix,
            self@.immix.wf(),
            self@.lo.wf(),
            self@.coordinator.wf(),
            self@.coordinator.phase != GcPhase::Marking ==> no_live_nodes(self@.lo.nodes),
    {
        self.immix_space.lemma_wf();
    }

    /// A collector over an Immix space of the whole blocks among the
    /// `immix_size` bytes from `immix_start`, and a large-object space of at
    /// most `lo_size` bytes, with `n_gcthreads` workers to trace. Both spaces
    /// are empty and no mutator is known.
    pub fn new(immix_start: Address, immix_size: usize, lo_size: usize, n_gcthreads: usize) -> (r:
        GC)
        requires
            immix_start@ > 0,
            immix_start@ % (BYTES_IN_BLOCK as int) == 0,
            immix_start@ + immix_size <= usize::MAX,
        ensures
            r.wf(),
            r@.immix == (ImmixSpaceView {
                start: immix_start@,
                blocks: Seq::new(
                    (immix_size / BYTES_IN_BLOCK) as nat,
                    |b: int| BlockMark::Unallocated,
                ),
                lines: Seq::new(
                    ((immix_size / BYTES_IN_BLOCK) * LINES_IN_BLOCK) as nat,
                    |l: int| LineMark::Free,
                ),
                marks: Seq::new(
                    ((immix_size / BYTES_IN_BLOCK) * LINES_IN_BLOCK * MARKS_IN_LINE) as nat,
                    |p: int| false,
                ),
                next_block: 0,
                lessee: Map::empty(),
            }),
            r@.lo == (FreeListView {
                nodes: Seq::empty(),
                next_id: 0,
                capacity: lo_size as nat,
                used_bytes: 0,
            }),
            r@.coordinator == (CoordinatorView {
                phase: GcPhase::Idle,
                mutators: 0,
                parked: 0,
                roots: Seq::empty(),
                gc_threads: n_gcthreads as nat,
            }),
            r@.next_mutator == 0,
    {
        GC {
            immix_space: ImmixSpace::new(immix_start, immix_size),
            lo_space: FreeListSpace::new(lo_size),
            coordinator: GcCoordinator::init(n_gcthreads),
            next_mutator: 0,
        }
    }

    pub fn immix_space(&self) -> (r: &ImmixSpace)
        ensures
            r == self.spec_immix_space(),
            r@ == self@.immix,
            self.wf() ==> r.wf(),
    {
        &self.immix_space
    }

    pub fn lo_space(&self) -> (r: &FreeListSpace)
        ensures
            r@ == self@.lo,
    {
        &self.lo_space
    }

    pub fn coordinator(&self) -> (r: &GcCoordinator)
        ensures
            r@ == self@.coordinator,
    {
        &self.coordinator
    }

    /// Whether another mutator can be made: a name and a count are left.
    pub fn can_add_mutator(&self) -> (r: bool)
        ensures
            r == (self@.next_mutator < usize::MAX && self@.coordinator.mutators < usize::MAX),
    {
        self.next_mutator < usize::MAX && self.coordinator.mutators() < usize::MAX
    }

    /// Makes a mutator with a name of its own and makes it known to the
    /// coordinator. It holds no block. It runs, unless a stop is asked for
    /// or the world is stopped: then it starts parked.
    pub fn new_mutator(&mut self) -> (r: ImmixMutatorLocal)
        requires
            old(self).wf(),
            old(self)@.next_mutator < usize::MAX,
            old(self)@.coordinator.mutators < usize::MAX,
        ensures
            final(self).wf(),
            r.wf(final(self).spec_immix_space()),
            r@ == (MutatorView {
                id: old(self)@.next_mutator,
                block: None,
                cursor: 0,
                limit: 0,
                line: 0,
                state: if old(self)@.coordinator.yield_requested() {
                    MutatorState::Parked
                } else {
                    MutatorState::Running
                },
                allocated: Set::empty(),
            }),
            final(self)@ == (GcView {
                next_mutator: old(self)@.next_mutator + 1,
                coordinator: CoordinatorView {
                    mutators: old(self)@.coordinator.mutators + 1,
                    parked: if old(self)@.coordinator.yield_requested() {
                        old(self)@.coordinator.parked + 1
                    } else {
                        old(self)@.coordinator.parked
                    },
                    ..old(self)@.coordinator
                },
                ..old(self)@
            }),
    {
        let mut mutator = ImmixMutatorLocal::new(self.next_mutator);
        self.next_mutator += 1;
        let parked = self.coordinator.register_mutator();
        if parked {
            mutator.park();
        }
        mutator
    }

    /// Takes leave of a running mutator: its block goes back to the space
    /// and the coordinator forgets it. Returns whether every mutator that is
    /// left is parked while a stop is asked for, so that the collection can
    /// start.
    pub fn drop_mutator(&mut self, mutator: ImmixMutatorLocal) -> (r: bool)
        requires
            old(self).wf(),
            mutator.wf(old(self).spec_immix_space()),
            old(self)@.coordinator.parked < old(self)@.coordinator.mutators,
        ensures
            final(self).wf(),
            final(self)@ == (GcView {
                immix: old(self)@.immix.given_back(mutator@.block),
                coordinator: CoordinatorView {
                    mutators: (old(self)@.coordinator.mutators - 1) as nat,
                    ..old(self)@.coordinator
                },
                ..old(self)@
            }),
            r == (final(self)@.coordinator.phase == GcPhase::StopRequested
                && final(self)@.coordinator.all_parked()),
    {
        let mut mutator = mutator;
        mutator.prepare_for_gc(&mut self.immix_space);
        self.coordinator.unregister_mutator()
    }

    /// Hands out `size` bytes at a multiple of `align` in the Immix space:
    /// the lowest free bytes that the mutator can reach, none of which it
    /// has handed out since the last collection. Fails with `OutOfBlocks`
    /// where nothing fits: the caller then asks for a collection.
    pub fn allocate(&mut self, mutator: &mut ImmixMutatorLocal, size: usize, align: usize) -> (r:
        Result<ObjectReference, HeapError>)
        requires
            old(self).wf(),
            old(mutator).wf(old(self).spec_immix_space()),
            0 < size <= MAX_IMMIX_OBJECT,
            is_pow2(align as int),
            align <= BYTES_IN_BLOCK,
        ensures
            final(self).wf(),
            final(mutator).wf(final(self).spec_immix_space()),
            final(self)@.immix.follows(old(self)@.immix, old(mutator)@.id),
            final(self)@.lo == old(self)@.lo,
            final(self)@.coordinator == old(self)@.coordinator,
            final(self)@.next_mutator == old(self)@.next_mutator,
            final(mutator)@.id == old(mutator)@.id,
            final(mutator)@.state == old(mutator)@.state,
            match r {
                Ok(obj) => {
                    &&& old(mutator)@.first_fit(
                        old(self)@.immix,
                        old(mutator)@.cursor,
                        obj@,
                        size as int,
                        align as int,
                    )
                    &&& obj@ % (align as int) == 0
                    &&& final(self)@.immix.range_free(obj@, size as int)
                    &&& old(mutator)@.allocated.disjoint(byte_range(obj@, size as int))
                    &&& final(mutator)@ == old(mutator)@.after_alloc(
                        old(self)@.immix,
                        obj@,
                        size as int,
                    )
                    &&& final(self)@.immix == old(mutator)@.space_after_alloc(old(self)@.immix, obj@)
                },
                Err(e) => {
                    &&& e == HeapError::OutOfBlocks
                    &&& old(mutator)@.no_fit(
                        old(self)@.immix,
                        old(mutator)@.cursor,
                        size as int,
                        align as int,
                    )
                    &&& final(mutator)@ == old(mutator)@.without_block()
                    &&& final(self)@.immix == old(self)@.immix.passed(
                        old(mutator)@.id,
                        old(mutator)@.block,
                        old(self)@.immix.n_blocks() as int,
                    )
                },
            },
    {
        match mutator.allocate(&mut self.immix_space, size, align) {
            Ok(addr) => Ok(addr.to_object_reference()),
            Err(e) => Err(e),
        }
    }

    /// The slow path of `allocate`, asked for by name: what is left before
    /// the limit is given up, and the bytes come from the next run of free
    /// lines that takes them.
    pub fn alloc_slow(&mut self, mutator: &mut ImmixMutatorLocal, size: usize, align: usize) -> (r:
        Result<ObjectReference, HeapError>)
        requires
            old(self).wf(),
            old(mutator).wf(old(self).spec_immix_space()),
            0 < size <= MAX_IMMIX_OBJECT,
            is_pow2(align as int),
            align <= BYTES_IN_BLOCK,
        ensures
            final(self).wf(),
            final(mutator).wf(final(self).spec_immix_space()),
            final(self)@.immix.follows(old(self)@.immix, old(mutator)@.id),
            final(self)@.lo == old(self)@.lo,
            final(self)@.coordinator == old(self)@.coordinator,
            final(self)@.next_mutator == old(self)@.next_mutator,
            final(mutator)@.id == old(mutator)@.id,
            final(mutator)@.state == old(mutator)@.state,
            match r {
                Ok(obj) => {
                    &&& old(mutator)@.first_fit(
                        old(self)@.immix,
                        old(mutator)@.limit,
                        obj@,
                        size as int,
                        align as int,
                    )
                    &&& old(mutator)@.allocated.disjoint(byte_range(obj@, size as int))
                    &&& final(mutator)@ == old(mutator)@.after_alloc(
                        old(self)@.immix,
                        obj@,
                        size as int,
                    )
                    &&& final(self)@.immix == old(mutator)@.space_after_alloc(old(self)@.immix, obj@)
                },
                Err(e) => {
                    &&& e == HeapError::OutOfBlocks
                    &&& old(mutator)@.no_fit(
                        old(self)@.immix,
                        old(mutator)@.limit,
                        size as int,
                        align as int,
                    )
                    &&& final(mutator)@ == old(mutator)@.without_block()
                    &&& final(self)@.immix == old(self)@.immix.passed(
                        old(mutator)@.id,
                        old(mutator)@.block,
                        old(self)@.immix.n_blocks() as int,
                    )
                },
            },
    {
        match mutator.try_alloc_from_local(&mut self.immix_space, size, align) {
            Ok(addr) => Ok(addr.to_object_reference()),
            Err(e) => Err(e),
        }
    }

    /// What a mutator that wants a large object of `size` bytes has to do
    /// next, after `collections` collections have ended since it first
    /// asked.
    pub fn alloc_large_action(&self, mutator: &ImmixMutatorLocal, size: usize, collections: usize) -> (r:
        LargeAllocAction)
        requires
            self.wf(),
        ensures
            r == large_alloc_action(mutator@.state, self@.lo, size as nat, collections as nat),
    {
        alloc_large(size, mutator, &self.lo_space, collections)
    }

    /// Records a large object of `size` bytes whose bytes the host
    /// allocator placed at `host`, at the alignment of large objects. Fails
    /// with `OutOfMemory`, and changes nothing, where the space does not
    /// accept the object.
    pub fn alloc_large(&mut self, size: usize, host: Address) -> (r: Result<
        ObjectReference,
        HeapError,
    >)
        requires
            old(self).wf(),
            size > 0,
            valid_layout(size, LARGE_OBJECT_ALIGN),
        ensures
            final(self).wf(),
            final(self)@.immix == old(self)@.immix,
            final(self)@.coordinator == old(self)@.coordinator,
            final(self)@.next_mutator == old(self)@.next_mutator,
            old(self)@.lo.accepts(size as nat, LARGE_OBJECT_ALIGN as nat, host@) ==> {
                &&& r == Ok::<ObjectReference, HeapError>(host.to_object_reference_spec())
                &&& final(self)@.lo == old(self)@.lo.with_node(
                    size as nat,
                    LARGE_OBJECT_ALIGN as nat,
                    host@,
                )
            },
            !old(self)@.lo.accepts(size as nat, LARGE_OBJECT_ALIGN as nat, host@) ==> {
                &&& r == Err::<ObjectReference, HeapError>(HeapError::OutOfMemory)
                &&& final(self)@.lo == old(self)@.lo
            },
            r matches Ok(obj) ==> {
                &&& obj@ % 8 == 0
                &&& final(self)@.lo.owns(obj@)
                &&& final(self)@.lo.used_bytes == old(self)@.lo.used_bytes + size
            },
    {
        let ghost before = self.lo_space@.nodes;
        match self.lo_space.allocate(size, LARGE_OBJECT_ALIGN, host) {
            Some(addr) => {
                proof {
                    let after = self.lo_space@.nodes;
                    if no_live_nodes(before) {
                        assert forall|i: int| 0 <= i < after.len() implies (
                        #[trigger] after[i]).mark != NodeMark::Live by {
                            if i > 0 {
                                assert(after[i] == before[i - 1]);
                            }
                        }
                    }
                }
                Ok(addr.to_object_reference())
            },
            None => Err(HeapError::OutOfMemory),
        }
    }

    /// The yieldpoint: tells the mutator of a stop that is asked for, and
    /// returns whether the mutator has to take the slow path now.
    pub fn yieldpoint(&self, mutator: &mut ImmixMutatorLocal) -> (r: bool)
        requires
            self.wf(),
            old(mutator).wf(self.spec_immix_space()),
        ensures
            final(mutator).wf(self.spec_immix_space()),
            final(mutator)@ == if self@.coordinator.yield_requested() {
                old(mutator)@.yield_requested()
            } else {
                old(mutator)@
            },
            r == (final(mutator)@.state == MutatorState::YieldRequested),
    {
        if self.coordinator.yield_requested() {
            mutator.request_yield();
        }
        mutator.yieldpoint()
    }

    /// The slow path of the yieldpoint: the mutator gives its block back,
    /// publishes `roots` and is parked. Returns whether every mutator is
    /// parked now: the caller that gets `true` runs the collection, the
    /// others wait for it to end.
    pub fn yieldpoint_slow(&mut self, mutator: &mut ImmixMutatorLocal, roots: &Vec<ObjectReference>) -> (r:
        bool)
        requires
            old(self).wf(),
            old(mutator).wf(old(self).spec_immix_space()),
            old(self)@.coordinator.phase == GcPhase::StopRequested,
            old(self)@.coordinator.parked < old(self)@.coordinator.mutators,
        ensures
            final(self).wf(),
            final(mutator).wf(final(self).spec_immix_space()),
            final(mutator)@ == old(mutator)@.parked(),
            final(self)@ == (GcView {
                immix: old(self)@.immix.given_back(old(mutator)@.block),
                coordinator: old(self)@.coordinator.with_parked(refs_of(roots@)),
                ..old(self)@
            }),
            r == final(self)@.coordinator.all_parked(),
    {
        mutator.yieldpoint_slow(&mut self.immix_space);
        self.coordinator.park(roots)
    }

    /// Lets a parked mutator run again, once the collection has ended.
    pub fn resume(&self, mutator: &mut ImmixMutatorLocal) -> (r: bool)
        requires
            old(mutator).wf(self.spec_immix_space()),
        ensures
            final(mutator).wf(self.spec_immix_space()),
            r == !self@.coordinator.yield_requested(),
            final(mutator)@ == if r {
                old(mutator)@.resumed()
            } else {
                old(mutator)@
            },
    {
        if self.coordinator.yield_requested() {
            false
        } else {
            mutator.resume();
            true
        }
    }

    /// Asks for a collection. Returns whether this call made the request.
    pub fn trigger_gc(&mut self) -> (r: bool)
        requires
            old(self).wf(),
        ensures
            final(self).wf(),
            r == (old(self)@.coordinator.phase == GcPhase::Idle),
            final(self)@.coordinator.yield_requested(),
            final(self)@ == (GcView {
                coordinator: old(self)@.coordinator.requested(),
                ..old(self)@
            }),
    {
        self.coordinator.trigger_gc()
    }

    /// Starts the collection, once every mutator is parked: every line
    /// becomes free, every mark bit is cleared, and the tracer has the
    /// published roots that are not null waiting.
    pub fn start_collection(&mut self) -> (r: Tracer)
        requires
            old(self).wf(),
            old(self)@.coordinator.phase == GcPhase::StopRequested,
            old(self)@.coordinator.all_parked(),
        ensures
            final(self).wf(),
            final(self)@ == (GcView {
                immix: old(self)@.immix.prepared(),
                coordinator: CoordinatorView {
                    phase: GcPhase::Marking,
                    ..old(self)@.coordinator
                },
                ..old(self)@
            }),
            r@ == (TracerView {
                queue: non_null(old(self)@.coordinator.roots),
                pending: Seq::empty(),
                log: Seq::empty(),
            }),
            forall|g: ObjectGraph|
                {
                    &&& g.closed()
                    &&& #[trigger] housed(g, final(self)@.immix, final(self)@.lo)
                    &&& forall|i: int|
                        0 <= i < r@.queue.len() ==> g.roots.contains(#[trigger] r@.queue[i])
                    &&& forall|root: int| #[trigger]
                        g.roots.contains(root) && root != 0 ==> r@.queue.contains(root)
                } ==> r@.inv(g, final(self)@.immix, final(self)@.lo),
    {
        self.immix_space.prepare_for_gc();
        let tracer = self.coordinator.start_marking();
        proof {
            self.immix_space.lemma_wf();
            let immix = self.immix_space@;
            let lo = self.lo_space@;
            assert forall|g: ObjectGraph|
                {
                    &&& g.closed()
                    &&& #[trigger] housed(g, immix, lo)
                    &&& forall|i: int|
                        0 <= i < tracer@.queue.len() ==> g.roots.contains(
                            #[trigger] tracer@.queue[i],
                        )
                    &&& forall|root: int| #[trigger]
                        g.roots.contains(root) && root != 0 ==> tracer@.queue.contains(root)
                } implies tracer@.inv(g, immix, lo) by {
                assert forall|i: int| 0 <= i < tracer@.queue.len() implies tracer@.queue[i]
                    != 0 by {
                    old(self)@.coordinator.roots.lemma_filter_pred(|r: int| r != 0, i);
                }
                lemma_trace_start(tracer@, g, immix, lo);
            }
        }
        tracer
    }

    /// Takes the next object to scan from the tracer, marking it in the
    /// space that holds it.
    pub fn trace_next(&mut self, tracer: &mut Tracer) -> (r: Result<TraceStep, HeapError>)
        requires
            old(self).wf(),
            old(self)@.coordinator.phase == GcPhase::Marking,
        ensures
            final(self).wf(),
            final(self)@.coordinator == old(self)@.coordinator,
            final(self)@.next_mutator == old(self)@.next_mutator,
            next_spec(
                old(tracer)@,
                old(self)@.immix,
                old(self)@.lo,
                final(tracer)@,
                final(self)@.immix,
                final(self)@.lo,
                r,
            ),
            forall|g: ObjectGraph| #[trigger]
                old(tracer)@.inv(g, old(self)@.immix, old(self)@.lo) ==> {
                    &&& r is Ok
                    &&& final(tracer)@.inv(g, final(self)@.immix, final(self)@.lo)
                },
    {
        tracer.next(&mut self.immix_space, &mut self.lo_space)
    }

    /// Ends the collection, once the trace has ended: both spaces are
    /// swept and the yield request is withdrawn. Returns the nodes of the
    /// large objects that were not marked, whose bytes go back to the host
    /// allocator.
    pub fn finish_collection(&mut self, tracer: &Tracer) -> (reclaimed: Vec<FreeListNode>)
        requires
            old(self).wf(),
            old(self)@.coordinator.phase == GcPhase::Marking,
            tracer@.finished(),
        ensures
            final(self).wf(),
            final(self)@ == (GcView {
                immix: old(self)@.immix.swept(),
                lo: FreeListView {
                    nodes: swept(old(self)@.lo.nodes),
                    used_bytes: total_size(live_nodes(old(self)@.lo.nodes)),
                    ..old(self)@.lo
                },
                coordinator: old(self)@.coordinator.resumed(),
                ..old(self)@
            }),
            node_views(reclaimed@) == dead_nodes(old(self)@.lo.nodes),
    {
        self.coordinator.start_sweeping(tracer);
        self.immix_space.sweep();
        let reclaimed = self.lo_space.sweep();
        self.coordinator.resume();
        proof {
            lemma_swept_nodes(old(self)@.lo.nodes);
        }
        reclaimed
    }
}

} // verus!
