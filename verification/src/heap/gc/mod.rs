//! The collector: the trace that marks what the roots reach, and the
//! protocol that stops the mutators around it.

use vstd::prelude::*;
use crate::common::ObjectReference;
use crate::error::HeapError;
use self::tracer::{non_null, refs_of, Tracer, TracerView};

pub mod collection;
pub mod graph;
pub mod tracer;

verus! {

/// Where the collector stands in a collection.
#[derive(PartialEq, Eq, Copy, Clone, Debug, Structural)]
pub enum GcPhase {
    /// No collection is under way; the mutators run.
    Idle,
    /// A collection was asked for; the mutators stop at their yieldpoints.
    StopRequested,
    /// All mutators are parked; the trace runs.
    Marking,
    /// The trace has ended; the spaces are swept.
    Sweeping,
}

/// What the coordinator is, as plain values.
pub struct CoordinatorView {
    pub phase: GcPhase,
    /// The mutators that the collector knows.
    pub mutators: nat,
    /// Those of them that are parked.
    pub parked: nat,
    /// The roots that the parked mutators have published, in order.
    pub roots: Seq<int>,
    /// The number of workers that trace.
    pub gc_threads: nat,
}

impl CoordinatorView {
    pub open spec fn wf(self) -> bool {
        &&& self.parked <= self.mutators
        &&& self.mutators <= usize::MAX
        &&& self.phase == GcPhase::Idle ==> self.parked == 0 && self.roots.len() == 0
        &&& self.phase == GcPhase::Marking || self.phase == GcPhase::Sweeping ==> self.parked
            == self.mutators
    }

    /// Whether the mutators have to stop at their next yieldpoint.
    pub open spec fn yield_requested(self) -> bool {
        self.phase != GcPhase::Idle
    }

    /// Whether every mutator is parked.
    pub open spec fn all_parked(self) -> bool {
        self.parked == self.mutators
    }

    /// The coordinator after a collection was asked for: an idle one now
    /// asks the mutators to stop, any other is as it was.
    pub open spec fn requested(self) -> CoordinatorView {
        CoordinatorView {
            phase: if self.phase == GcPhase::Idle {
                GcPhase::StopRequested
            } else {
                self.phase
            },
            ..self
        }
    }

    /// The coordinator after one more mutator has parked and published
    /// `roots`.
    pub open spec fn with_parked(self, roots: Seq<int>) -> CoordinatorView {
        CoordinatorView { parked: self.parked + 1, roots: self.roots + roots, ..self }
    }

    /// The coordinator after the collection has ended.
    pub open spec fn resumed(self) -> CoordinatorView {
        CoordinatorView { phase: GcPhase::Idle, parked: 0, roots: Seq::empty(), ..self }
    }
}

/// A request for a collection stops the world: once it is made, the yield
/// request stands; a running mutator that comes to a yieldpoint finds that
/// it has to stop, and its slow path parks it; and when the last mutator
/// has parked, all are parked and the trace can start.
pub proof fn lemma_stop_the_world(
    c: CoordinatorView,
    m: crate::heap::immix::immix_mutator::MutatorView,
    roots: Seq<int>,
)
    requires
        c.wf(),
        c.phase == GcPhase::Idle || c.phase == GcPhase::StopRequested,
        c.parked < c.mutators,
        m.state == crate::heap::immix::immix_mutator::MutatorState::Running,
    ensures
        c.requested().yield_requested(),
        c.requested().phase == GcPhase::StopRequested,
        m.yield_requested().state
            == crate::heap::immix::immix_mutator::MutatorState::YieldRequested,
        m.yield_requested().parked().state == crate::heap::immix::immix_mutator::MutatorState::Parked,
        m.yield_requested().parked().block is None,
        c.requested().with_parked(roots).wf(),
        c.requested().with_parked(roots).parked == c.parked + 1,
        c.parked + 1 == c.mutators ==> c.requested().with_parked(roots).all_parked(),
{
}

pub struct GcCoordinator {
    phase: GcPhase,
    mutators: usize,
    parked: usize,
    roots: Vec<ObjectReference>,
    gc_threads: usize,
}

impl View for GcCoordinator {
    type V = CoordinatorView;

    closed spec fn view(&self) -> CoordinatorView {
        CoordinatorView {
            phase: self.phase,
            mutators: self.mutators as nat,
            parked: self.parked as nat,
            roots: refs_of(self.roots@),
            gc_threads: self.gc_threads as nat,
        }
    }
}

/// What the collector tells a mutator whose allocation failed again after a
/// collection: the heap is exhausted where the collection freed nothing.
pub fn check_progress(freed: bool, failed_again: bool) -> (r: Result<(), HeapError>)
    ensures
        r == if failed_again && !freed {
            Err::<(), HeapError>(HeapError::HeapExhausted)
        } else {
            Ok::<(), HeapError>(())
        },
{
    if failed_again && !freed {
        Err(HeapError::HeapExhausted)
    } else {
        Ok(())
    }
}

impl GcCoordinator {
    /// An idle coordinator with no mutators, whose traces `gc_threads`
    /// workers run.
    pub fn init(gc_threads: usize) -> (r: GcCoordinator)
        ensures
            r@.wf(),
            r@ == (CoordinatorView {
                phase: GcPhase::Idle,
                mutators: 0,
                parked: 0,
                roots: Seq::empty(),
                gc_threads: gc_threads as nat,
            }),
    {
        let r = GcCoordinator {
            phase: GcPhase::Idle,
            mutators: 0,
            parked: 0,
            roots: Vec::new(),
            gc_threads,
        };
        assert(r@.roots =~= Seq::<int>::empty());
        r
    }

    pub fn phase(&self) -> (r: GcPhase)
        ensures
            r == self@.phase,
    {
        self.phase
    }

    pub fn gc_threads(&self) -> (r: usize)
        ensures
            r == self@.gc_threads,
    {
        self.gc_threads
    }

    pub fn mutators(&self) -> (r: usize)
        ensures
            r == self@.mutators,
    {
        self.mutators
    }

    pub fn parked(&self) -> (r: usize)
        ensures
            r == self@.parked,
    {
        self.parked
    }

    /// Makes a new mutator known. Returns whether it has to start parked:
    /// a mutator that comes while the world is stopping or stopped joins as
    /// parked.
    pub fn register_mutator(&mut self) -> (r: bool)
        requires
            old(self)@.wf(),
            old(self)@.mutators < usize::MAX,
        ensures
            final(self)@.wf(),
            r == old(self)@.yield_requested(),
            final(self)@ == (CoordinatorView {
                mutators: old(self)@.mutators + 1,
                parked: if r {
                    old(self)@.parked + 1
                } else {
                    old(self)@.parked
                },
                ..old(self)@
            }),
    {
        self.mutators += 1;
        if self.phase != GcPhase::Idle {
            self.parked += 1;
            true
        } else {
            false
        }
    }

    /// Forgets a mutator that runs. Returns whether all the mutators that
    /// are left are parked while a stop is asked for.
    pub fn unregister_mutator(&mut self) -> (r: bool)
        requires
            old(self)@.wf(),
            old(self)@.parked < old(self)@.mutators,
        ensures
            final(self)@.wf(),
            final(self)@ == (CoordinatorView {
                mutators: (old(self)@.mutators - 1) as nat,
                ..old(self)@
            }),
            r == (final(self)@.phase == GcPhase::StopRequested && final(self)@.all_parked()),
    {
        self.mutators -= 1;
        self.phase == GcPhase::StopRequested && self.parked == self.mutators
    }

    /// Asks for a collection. Returns whether this call made the request:
    /// while a collection is asked for or under way, asking again changes
    /// nothing.
    pub fn trigger_gc(&mut self) -> (r: bool)
        requires
            old(self)@.wf(),
        ensures
            final(self)@.wf(),
            r == (old(self)@.phase == GcPhase::Idle),
            final(self)@.yield_requested(),
            final(self)@ == old(self)@.requested(),
    {
        if self.phase == GcPhase::Idle {
            self.phase = GcPhase::StopRequested;
            true
        } else {
            false
        }
    }

    /// Whether the mutators have to stop at their next yieldpoint.
    pub fn yield_requested(&self) -> (r: bool)
        ensures
            r == self@.yield_requested(),
    {
        self.phase != GcPhase::Idle
    }

    /// Whether every mutator is parked.
    pub fn all_parked(&self) -> (r: bool)
        ensures
            r == self@.all_parked(),
    {
        self.parked == self.mutators
    }

    /// Parks one mutator and takes the roots that it publishes. Returns
    /// whether every mutator is parked now.
    pub fn park(&mut self, roots: &Vec<ObjectReference>) -> (r: bool)
        requires
            old(self)@.wf(),
            old(self)@.phase == GcPhase::StopRequested,
            old(self)@.parked < old(self)@.mutators,
        ensures
            final(self)@.wf(),
            final(self)@ == old(self)@.with_parked(refs_of(roots@)),
            r == final(self)@.all_parked(),
    {
        let mut i: usize = 0;
        while i < roots.len()
            invariant
                i <= roots@.len(),
                self@.roots == old(self)@.roots + refs_of(roots@).take(i as int),
                self.phase == old(self).phase,
                self.mutators == old(self).mutators,
                self.parked == old(self).parked,
                self.gc_threads == old(self).gc_threads,
            decreases roots@.len() - i,
        {
            let ghost held = self@.roots;
            self.roots.push(roots[i]);
            proof {
                assert(self@.roots =~= held.push(roots@[i as int]@));
                assert(refs_of(roots@).take(i + 1) =~= refs_of(roots@).take(i as int).push(
                    roots@[i as int]@,
                ));
            }
            i += 1;
        }
        proof {
            assert(refs_of(roots@).take(i as int) =~= refs_of(roots@));
        }
        self.parked += 1;
        self.parked == self.mutators
    }

    /// Starts the trace, once every mutator is parked: the tracer has the
    /// published roots that are not null waiting.
    pub fn start_marking(&mut self) -> (r: Tracer)
        requires
            old(self)@.wf(),
            old(self)@.phase == GcPhase::StopRequested,
            old(self)@.all_parked(),
        ensures
            final(self)@.wf(),
            final(self)@ == (CoordinatorView { phase: GcPhase::Marking, ..old(self)@ }),
            r@ == (TracerView {
                queue: non_null(old(self)@.roots),
                pending: Seq::empty(),
                log: Seq::empty(),
            }),
    {
        self.phase = GcPhase::Marking;
        Tracer::new(&self.roots)
    }

    /// Goes on to the sweep, once the trace has ended.
    pub fn start_sweeping(&mut self, tracer: &Tracer)
        requires
            old(self)@.wf(),
            old(self)@.phase == GcPhase::Marking,
            tracer@.finished(),
        ensures
            final(self)@.wf(),
            final(self)@ == (CoordinatorView { phase: GcPhase::Sweeping, ..old(self)@ }),
    {
        self.phase = GcPhase::Sweeping;
    }

    /// Ends the collection, once the spaces are swept: the yield request is
    /// withdrawn, no mutator counts as parked, and the roots are forgotten.
    pub fn resume(&mut self)
        requires
            old(self)@.wf(),
            old(self)@.phase == GcPhase::Sweeping,
        ensures
            final(self)@.wf(),
            !final(self)@.yield_requested(),
            final(self)@ == old(self)@.resumed(),
    {
        self.phase = GcPhase::Idle;
        self.parked = 0;
        self.roots.clear();
        assert(self@.roots =~= Seq::<int>::empty());
    }
}

} // verus!
