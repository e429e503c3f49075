//! The trace: a work list of references, from which each unmarked object is
//! marked and handed out once to have its slots read.
//!
//! The tracer does not read memory. It hands the caller an object to scan;
//! the caller reads the object's slots through the object model and hands
//! them back. Several workers can scan at a time, each its own object.

use vstd::prelude::*;
use crate::common::{ObjectReference, POINTER_SIZE};
use crate::error::HeapError;
use crate::heap::freelist::{
    has_live_node_at,
    has_node_at,
    marked_at,
    FreeListSpace,
    FreeListView,
    NodeMark,
    NodeView,
};
use crate::heap::immix::immix_space::{ImmixSpace, ImmixSpaceView};
use super::graph::{
    housed,
    is_marked,
    lemma_closed_set_holds_reachable,
    lemma_edge_reachable,
    lemma_reachable_in_graph,
    lemma_root_reachable,
    resident,
    ObjectGraph,
};

verus! {

/// The values of a list of references.
pub open spec fn refs_of(refs: Seq<ObjectReference>) -> Seq<int> {
    refs.map_values(|r: ObjectReference| r@)
}

/// The references of `refs` that are not null, in order.
pub open spec fn non_null(refs: Seq<int>) -> Seq<int> {
    refs.filter(|r: int| r != 0)
}

/// The Immix space with the mark bit of the object at `obj` set.
pub open spec fn immix_marked(immix: ImmixSpaceView, obj: int) -> ImmixSpaceView {
    ImmixSpaceView {
        marks: immix.marks.update((obj - immix.start) / (POINTER_SIZE as int), true),
        ..immix
    }
}

/// The large-object space with the object at `obj` marked live.
pub open spec fn lo_marked(lo: FreeListView, obj: int) -> FreeListView {
    FreeListView { nodes: marked_at(lo.nodes, obj), ..lo }
}

/// What the tracer is, as plain values.
pub struct TracerView {
    /// The references that wait to be looked at; the last is taken first.
    pub queue: Seq<int>,
    /// The objects handed out for scanning whose slots have not come back.
    pub pending: Seq<int>,
    /// Every object handed out for scanning, in order.
    pub log: Seq<int>,
}

impl TracerView {
    /// Whether the trace has ended: nothing waits and nothing is out.
    pub open spec fn finished(self) -> bool {
        self.queue.len() == 0 && self.pending.len() == 0
    }

    /// Every reference that waits names a reachable object.
    pub open spec fn queue_reachable(self, g: ObjectGraph) -> bool {
        forall|i: int| 0 <= i < self.queue.len() ==> g.reachable(#[trigger] self.queue[i])
    }

    /// Every root is marked or waits.
    pub open spec fn roots_seen(self, g: ObjectGraph, immix: ImmixSpaceView, lo: FreeListView) -> bool {
        forall|r: int| #[trigger]
            g.roots.contains(r) && r != 0 ==> is_marked(immix, lo, r) || self.queue.contains(r)
    }

    /// What a marked object refers to is marked or waits, unless the
    /// object's slots have not come back yet.
    pub open spec fn children_seen(self, g: ObjectGraph, immix: ImmixSpaceView, lo: FreeListView) -> bool {
        forall|from: int, to: int| #[trigger]
            g.edge(from, to) && is_marked(immix, lo, from) && !self.pending.contains(from)
                ==> is_marked(immix, lo, to) || self.queue.contains(to)
    }

    /// The log holds each marked object once, and nothing else; all of them
    /// are reachable.
    pub open spec fn log_exact(self, g: ObjectGraph, immix: ImmixSpaceView, lo: FreeListView) -> bool {
        &&& self.log.no_duplicates()
        &&& forall|i: int|
            0 <= i < self.log.len() ==> g.reachable(#[trigger] self.log[i]) && is_marked(
                immix,
                lo,
                self.log[i],
            )
        &&& forall|obj: int| #[trigger]
            g.slots.contains_key(obj) && is_marked(immix, lo, obj) ==> self.log.contains(obj)
    }

    /// The objects that are out for scanning are in the log, each once.
    pub open spec fn pending_logged(self) -> bool {
        &&& self.pending.no_duplicates()
        &&& forall|i: int| 0 <= i < self.pending.len() ==> self.log.contains(#[trigger] self.pending[i])
    }

    /// No mark bit is set but for a logged object of the Immix space.
    pub open spec fn marks_exact(self, immix: ImmixSpaceView) -> bool {
        forall|p: int|
            0 <= p < immix.marks.len() && #[trigger] immix.marks[p] ==> exists|obj: int| #[trigger]
                self.log.contains(obj) && immix.contains(obj) && (obj - immix.start) / (
                POINTER_SIZE as int) == p
    }

    /// The live nodes are those of the logged objects outside the Immix
    /// space.
    pub open spec fn nodes_exact(self, immix: ImmixSpaceView, lo: FreeListView) -> bool {
        forall|i: int|
            0 <= i < lo.nodes.len() ==> ((#[trigger] lo.nodes[i]).mark == NodeMark::Live <==> (
            self.log.contains(lo.nodes[i].start) && !immix.contains(lo.nodes[i].start)))
    }

    /// The invariant of a trace of the graph `g` over the two spaces.
    pub open spec fn inv(self, g: ObjectGraph, immix: ImmixSpaceView, lo: FreeListView) -> bool {
        &&& g.closed()
        &&& housed(g, immix, lo)
        &&& immix.wf()
        &&& self.queue_reachable(g)
        &&& self.roots_seen(g, immix, lo)
        &&& self.children_seen(g, immix, lo)
        &&& self.log_exact(g, immix, lo)
        &&& self.pending_logged()
        &&& self.marks_exact(immix)
        &&& self.nodes_exact(immix, lo)
    }

    /// The tracer after it has passed over the last waiting reference.
    pub open spec fn skipped(self) -> TracerView {
        TracerView { queue: self.queue.drop_last(), ..self }
    }

    /// The tracer after it has handed out the last waiting reference.
    pub open spec fn handed_out(self) -> TracerView {
        TracerView {
            queue: self.queue.drop_last(),
            pending: self.pending.push(self.queue.last()),
            log: self.log.push(self.queue.last()),
        }
    }

    /// The tracer after the slots of the pending object at `index` came
    /// back.
    pub open spec fn scanned(self, index: int, slots: Seq<int>) -> TracerView {
        TracerView {
            queue: self.queue + non_null(slots),
            pending: self.pending.remove(index),
            log: self.log,
        }
    }
}

/// A trace starts well: with no mark set, the roots waiting and nothing
/// else, the invariant holds.
pub proof fn lemma_trace_start(t: TracerView, g: ObjectGraph, immix: ImmixSpaceView, lo: FreeListView)
    requires
        g.closed(),
        housed(g, immix, lo),
        immix.wf(),
        forall|p: int| 0 <= p < immix.marks.len() ==> !#[trigger] immix.marks[p],
        forall|i: int| 0 <= i < lo.nodes.len() ==> (#[trigger] lo.nodes[i]).mark != NodeMark::Live,
        t.pending.len() == 0,
        t.log.len() == 0,
        forall|i: int|
            0 <= i < t.queue.len() ==> g.roots.contains(#[trigger] t.queue[i]) && t.queue[i] != 0,
        forall|r: int| #[trigger] g.roots.contains(r) && r != 0 ==> t.queue.contains(r),
    ensures
        t.inv(g, immix, lo),
{
    assert forall|i: int| 0 <= i < t.queue.len() implies g.reachable(#[trigger] t.queue[i]) by {
        lemma_root_reachable(g, t.queue[i]);
    }
    assert forall|obj: int| !is_marked(immix, lo, obj) by {
        if immix.contains(obj) {
            lemma_word_in_range(immix, obj);
        }
    }
}

/// The word of an address of the Immix space has a mark bit.
pub(crate) proof fn lemma_word_in_range(immix: ImmixSpaceView, obj: int)
    requires
        immix.wf(),
        immix.contains(obj),
    ensures
        0 <= (obj - immix.start) / (POINTER_SIZE as int) < immix.marks.len(),
{
    assert(immix.marks.len() == immix.n_blocks() * 4096) by (nonlinear_arith)
        requires
            immix.marks.len() == immix.lines.len() * 32,
            immix.lines.len() == immix.n_blocks() * 128,
    ;
}

/// When the trace has ended, the marked objects are the reachable ones, and
/// the log holds just them.
pub proof fn lemma_trace_end(t: TracerView, g: ObjectGraph, immix: ImmixSpaceView, lo: FreeListView)
    requires
        t.inv(g, immix, lo),
        t.finished(),
    ensures
        forall|obj: int|
            g.reachable(obj) <==> g.slots.contains_key(obj) && #[trigger] is_marked(immix, lo, obj),
        forall|obj: int| g.reachable(obj) <==> #[trigger] t.log.contains(obj),
        t.log.no_duplicates(),
{
    let set = Set::new(|obj: int| g.slots.contains_key(obj) && is_marked(immix, lo, obj));
    assert forall|obj: int| g.reachable(obj) implies g.slots.contains_key(obj) && is_marked(
        immix,
        lo,
        obj,
    ) by {
        assert forall|from: int, to: int| set.contains(from) && #[trigger] g.edge(
            from,
            to,
        ) implies set.contains(to) by {
            assert(!t.pending.contains(from));
            assert(!t.queue.contains(to));
        }
        assert forall|r: int| #[trigger] g.roots.contains(r) && r != 0 implies set.contains(r) by {
            assert(!t.queue.contains(r));
        }
        lemma_closed_set_holds_reachable(g, set, obj);
    }
    assert forall|obj: int| g.slots.contains_key(obj) && is_marked(
        immix,
        lo,
        obj,
    ) implies g.reachable(obj) by {
        assert(t.log.contains(obj));
    }
    assert forall|obj: int| #[trigger] t.log.contains(obj) implies g.reachable(obj) by {
        let i = choose|i: int| 0 <= i < t.log.len() && t.log[i] == obj;
        assert(g.reachable(t.log[i]));
    }
    assert forall|obj: int| g.reachable(obj) implies #[trigger] t.log.contains(obj) by {
        assert(g.slots.contains_key(obj) && is_marked(immix, lo, obj));
    }
}

/// Passing over a waiting reference whose object is marked keeps the
/// invariant.
proof fn lemma_skip(t: TracerView, g: ObjectGraph, immix: ImmixSpaceView, lo: FreeListView)
    requires
        t.inv(g, immix, lo),
        t.queue.len() > 0,
        is_marked(immix, lo, t.queue.last()),
    ensures
        t.skipped().inv(g, immix, lo),
{
    let next = t.skipped();
    let last = t.queue.last();
    assert forall|x: int| t.queue.contains(x) && x != last implies next.queue.contains(x) by {
        let i = choose|i: int| 0 <= i < t.queue.len() && t.queue[i] == x;
        assert(next.queue[i] == x);
    }
    assert forall|i: int| 0 <= i < next.queue.len() implies g.reachable(#[trigger] next.queue[i]) by {
        assert(next.queue[i] == t.queue[i]);
    }
}

/// Marking changes the mark of no other object of the graph.
proof fn lemma_mark_one(
    g: ObjectGraph,
    immix: ImmixSpaceView,
    lo: FreeListView,
    obj: int,
    other: int,
)
    requires
        g.closed(),
        housed(g, immix, lo),
        immix.wf(),
        g.slots.contains_key(obj),
        g.slots.contains_key(other),
    ensures
        immix.contains(obj) ==> is_marked(immix_marked(immix, obj), lo, other) == (other == obj
            || is_marked(immix, lo, other)),
        !immix.contains(obj) ==> is_marked(immix, lo_marked(lo, obj), other) == (other == obj
            || is_marked(immix, lo, other)),
{
    if immix.contains(obj) {
        lemma_word_in_range(immix, obj);
        if immix.contains(other) {
            lemma_word_in_range(immix, other);
        }
    } else {
        lemma_lo_marked(lo.nodes, obj, other);
        assert(has_node_at(lo.nodes, obj));
    }
}

/// Marking the nodes at `obj` makes them live and leaves the others.
proof fn lemma_lo_marked(nodes: Seq<NodeView>, obj: int, other: int)
    ensures
        has_live_node_at(marked_at(nodes, obj), other) == ((other == obj && has_node_at(nodes, obj))
            || has_live_node_at(nodes, other)),
        has_node_at(marked_at(nodes, obj), other) == has_node_at(nodes, other),
{
    let after = marked_at(nodes, obj);
    if has_live_node_at(after, other) {
        let i = choose|i: int|
            0 <= i < after.len() && (#[trigger] after[i]).start == other && after[i].mark
                == NodeMark::Live;
        assert(after[i] == nodes[i].marked_at(obj));
        assert(nodes[i].start == other);
    }
    if other == obj && has_node_at(nodes, obj) {
        let i = choose|i: int| 0 <= i < nodes.len() && (#[trigger] nodes[i]).start == obj;
        assert(after[i] == nodes[i].marked_at(obj));
    }
    if has_live_node_at(nodes, other) {
        let i = choose|i: int|
            0 <= i < nodes.len() && (#[trigger] nodes[i]).start == other && nodes[i].mark
                == NodeMark::Live;
        assert(after[i] == nodes[i].marked_at(obj));
    }
    if has_node_at(after, other) {
        let i = choose|i: int| 0 <= i < after.len() && (#[trigger] after[i]).start == other;
        assert(after[i] == nodes[i].marked_at(obj));
        assert(nodes[i].start == other);
    }
    if has_node_at(nodes, other) {
        let i = choose|i: int| 0 <= i < nodes.len() && (#[trigger] nodes[i]).start == other;
        assert(after[i] == nodes[i].marked_at(obj));
    }
}

/// Marking the object of the last waiting reference, which was not marked,
/// and handing it out keeps the invariant.
proof fn lemma_hand_out(
    t: TracerView,
    g: ObjectGraph,
    immix: ImmixSpaceView,
    lo: FreeListView,
    immix_after: ImmixSpaceView,
    lo_after: FreeListView,
)
    requires
        t.inv(g, immix, lo),
        t.queue.len() > 0,
        !is_marked(immix, lo, t.queue.last()),
        immix.contains(t.queue.last()) ==> immix_after == immix_marked(immix, t.queue.last())
            && lo_after == lo,
        !immix.contains(t.queue.last()) ==> immix_after == immix && lo_after == lo_marked(
            lo,
            t.queue.last(),
        ),
    ensures
        t.handed_out().inv(g, immix_after, lo_after),
{
    let next = t.handed_out();
    let obj = t.queue.last();
    assert(g.reachable(t.queue[t.queue.len() - 1]));
    lemma_reachable_in_graph(g, obj);
    assert(resident(immix, lo, obj));
    assert forall|other: int| #[trigger] g.slots.contains_key(other) implies is_marked(
        immix_after,
        lo_after,
        other,
    ) == (other == obj || is_marked(immix, lo, other)) by {
        lemma_mark_one(g, immix, lo, obj, other);
    }
    assert(housed(g, immix_after, lo_after)) by {
        assert forall|other: int| #[trigger] g.slots.contains_key(other) implies resident(
            immix_after,
            lo_after,
            other,
        ) by {
            assert(resident(immix, lo, other));
            lemma_lo_marked(lo.nodes, obj, other);
        }
    }
    assert(immix_after.wf()) by {
        if immix.contains(obj) {
            lemma_word_in_range(immix, obj);
        }
    }
    assert forall|x: int| t.queue.contains(x) && x != obj implies next.queue.contains(x) by {
        let i = choose|i: int| 0 <= i < t.queue.len() && t.queue[i] == x;
        assert(next.queue[i] == x);
    }
    assert(!t.log.contains(obj)) by {
        if t.log.contains(obj) {
            let i = choose|i: int| 0 <= i < t.log.len() && t.log[i] == obj;
            assert(is_marked(immix, lo, t.log[i]));
        }
    }
    assert forall|x: int| next.log.contains(x) <==> (x == obj || t.log.contains(x)) by {
        if t.log.contains(x) {
            let i = choose|i: int| 0 <= i < t.log.len() && t.log[i] == x;
            assert(next.log[i] == x);
        }
        if x == obj {
            assert(next.log[t.log.len() as int] == obj);
        }
        if next.log.contains(x) {
            let i = choose|i: int| 0 <= i < next.log.len() && next.log[i] == x;
            if i < t.log.len() {
                assert(t.log[i] == x);
            }
        }
    }
    assert forall|x: int| next.pending.contains(x) <==> (x == obj || t.pending.contains(x)) by {
        if t.pending.contains(x) {
            let i = choose|i: int| 0 <= i < t.pending.len() && t.pending[i] == x;
            assert(next.pending[i] == x);
        }
        if x == obj {
            assert(next.pending[t.pending.len() as int] == obj);
        }
        if next.pending.contains(x) {
            let i = choose|i: int| 0 <= i < next.pending.len() && next.pending[i] == x;
            if i < t.pending.len() {
                assert(t.pending[i] == x);
            }
        }
    }
    assert(next.queue_reachable(g)) by {
        assert forall|i: int| 0 <= i < next.queue.len() implies g.reachable(
            #[trigger] next.queue[i],
        ) by {
            assert(next.queue[i] == t.queue[i]);
        }
    }
    assert(next.roots_seen(g, immix_after, lo_after)) by {
        assert forall|r: int| #[trigger] g.roots.contains(r) && r != 0 implies is_marked(
            immix_after,
            lo_after,
            r,
        ) || next.queue.contains(r) by {
            assert(g.slots.contains_key(r));
        }
    }
    assert(next.children_seen(g, immix_after, lo_after)) by {
        assert forall|from: int, to: int| #[trigger]
            g.edge(from, to) && is_marked(immix_after, lo_after, from) && !next.pending.contains(
                from,
            ) implies is_marked(immix_after, lo_after, to) || next.queue.contains(to) by {
            assert(g.slots.contains_key(from));
            assert(g.slots.contains_key(to));
            assert(!t.pending.contains(from));
        }
    }
    assert(next.log_exact(g, immix_after, lo_after)) by {
        assert forall|i: int| 0 <= i < next.log.len() implies g.reachable(#[trigger] next.log[i])
            && is_marked(immix_after, lo_after, next.log[i]) by {
            if i < t.log.len() {
                assert(next.log[i] == t.log[i]);
                assert(g.reachable(t.log[i]));
                lemma_reachable_in_graph(g, t.log[i]);
            }
        }
        assert forall|i: int, j: int|
            0 <= i < next.log.len() && 0 <= j < next.log.len() && i != j implies next.log[i]
            != next.log[j] by {
            if i < t.log.len() {
                assert(t.log.contains(next.log[i]));
            }
            if j < t.log.len() {
                assert(t.log.contains(next.log[j]));
            }
        }
    }
    assert(next.pending_logged()) by {
        assert forall|i: int, j: int|
            0 <= i < next.pending.len() && 0 <= j < next.pending.len() && i != j implies next.pending[i]
            != next.pending[j] by {
            if i < t.pending.len() {
                assert(t.pending[i] == next.pending[i]);
                assert(t.log.contains(t.pending[i]));
            }
            if j < t.pending.len() {
                assert(t.pending[j] == next.pending[j]);
                assert(t.log.contains(t.pending[j]));
            }
        }
        assert forall|i: int| 0 <= i < next.pending.len() implies next.log.contains(
            #[trigger] next.pending[i],
        ) by {
            if i < t.pending.len() {
                assert(t.pending[i] == next.pending[i]);
                assert(t.log.contains(t.pending[i]));
            }
        }
    }
    assert(next.marks_exact(immix_after)) by {
        assert forall|p: int| 0 <= p < immix_after.marks.len() && #[trigger] immix_after.marks[p] implies exists|
            x: int,
        | #[trigger]
            next.log.contains(x) && immix_after.contains(x) && (x - immix_after.start) / (
            POINTER_SIZE as int) == p by {
            if immix.contains(obj) && p == (obj - immix.start) / (POINTER_SIZE as int) {
                assert(next.log.contains(obj));
            } else {
                assert(immix.marks[p]);
                let x = choose|x: int| #[trigger]
                    t.log.contains(x) && immix.contains(x) && (x - immix.start) / (
                    POINTER_SIZE as int) == p;
                assert(next.log.contains(x));
            }
        }
    }
    assert(next.nodes_exact(immix_after, lo_after)) by {
        assert forall|i: int| 0 <= i < lo_after.nodes.len() implies ((
        #[trigger] lo_after.nodes[i]).mark == NodeMark::Live <==> (next.log.contains(
            lo_after.nodes[i].start,
        ) && !immix_after.contains(lo_after.nodes[i].start))) by {
            assert(lo.nodes[i].mark == NodeMark::Live <==> (t.log.contains(lo.nodes[i].start)
                && !immix.contains(lo.nodes[i].start)));
            if !immix.contains(obj) {
                assert(lo_after.nodes[i] == lo.nodes[i].marked_at(obj));
            }
        }
    }
}

/// Taking the slots of a pending object into the queue keeps the invariant.
proof fn lemma_scanned(
    t: TracerView,
    g: ObjectGraph,
    immix: ImmixSpaceView,
    lo: FreeListView,
    index: int,
    slots: Seq<int>,
)
    requires
        t.inv(g, immix, lo),
        0 <= index < t.pending.len(),
        g.slots[t.pending[index]] == slots,
    ensures
        t.scanned(index, slots).inv(g, immix, lo),
{
    let next = t.scanned(index, slots);
    let obj = t.pending[index];
    let added = non_null(slots);
    assert(t.log.contains(obj));
    let k = choose|k: int| 0 <= k < t.log.len() && t.log[k] == obj;
    assert(g.reachable(t.log[k]) && is_marked(immix, lo, t.log[k]));
    lemma_reachable_in_graph(g, obj);
    assert forall|x: int| t.queue.contains(x) implies next.queue.contains(x) by {
        let i = choose|i: int| 0 <= i < t.queue.len() && t.queue[i] == x;
        assert(next.queue[i] == x);
    }
    assert forall|x: int| added.contains(x) implies next.queue.contains(x) by {
        let i = choose|i: int| 0 <= i < added.len() && added[i] == x;
        assert(next.queue[t.queue.len() + i] == x);
    }
    assert forall|x: int| x != obj && t.pending.contains(x) implies next.pending.contains(x) by {
        let i = choose|i: int| 0 <= i < t.pending.len() && t.pending[i] == x;
        if i < index {
            assert(next.pending[i] == x);
        } else {
            assert(next.pending[i - 1] == x);
        }
    }
    assert forall|i: int| 0 <= i < next.pending.len() implies #[trigger] next.pending[i] == t.pending[if i
        < index {
        i
    } else {
        i + 1
    }] by {}
    assert(!next.pending.contains(obj)) by {
        if next.pending.contains(obj) {
            let i = choose|i: int| 0 <= i < next.pending.len() && next.pending[i] == obj;
            let j = if i < index {
                i
            } else {
                i + 1
            };
            assert(t.pending[j] == obj);
        }
    }
    assert(next.queue_reachable(g)) by {
        assert forall|i: int| 0 <= i < next.queue.len() implies g.reachable(
            #[trigger] next.queue[i],
        ) by {
            if i < t.queue.len() {
                assert(next.queue[i] == t.queue[i]);
            } else {
                let c = added[i - t.queue.len()];
                assert(next.queue[i] == c);
                assert(added.contains(c));
                lemma_filter_subset(slots, c);
                assert(g.edge(obj, c));
                lemma_edge_reachable(g, obj, c);
            }
        }
    }
    assert(next.children_seen(g, immix, lo)) by {
        assert forall|from: int, to: int| #[trigger]
            g.edge(from, to) && is_marked(immix, lo, from) && !next.pending.contains(
                from,
            ) implies is_marked(immix, lo, to) || next.queue.contains(to) by {
            if from == obj {
                let i = choose|i: int| 0 <= i < slots.len() && slots[i] == to;
                slots.lemma_filter_contains(|r: int| r != 0, i);
                assert(added.contains(slots[i]));
            } else {
                assert(!t.pending.contains(from));
            }
        }
    }
    assert(next.pending_logged()) by {
        assert forall|i: int, j: int|
            0 <= i < next.pending.len() && 0 <= j < next.pending.len() && i != j implies next.pending[i]
            != next.pending[j] by {}
        assert forall|i: int| 0 <= i < next.pending.len() implies next.log.contains(
            #[trigger] next.pending[i],
        ) by {
            let j = if i < index {
                i
            } else {
                i + 1
            };
            assert(t.log.contains(t.pending[j]));
        }
    }
}

/// What a filter keeps was there.
proof fn lemma_filter_subset(slots: Seq<int>, c: int)
    requires
        non_null(slots).contains(c),
    ensures
        slots.contains(c),
        c != 0,
    decreases slots.len(),
{
    reveal(Seq::filter);
    if slots.len() > 0 {
        let init = slots.drop_last();
        if slots.last() != 0 && c == slots.last() {
            assert(slots[slots.len() - 1] == c);
        } else {
            assert(non_null(init).contains(c)) by {
                let kept = non_null(slots);
                let i = choose|i: int| 0 <= i < kept.len() && kept[i] == c;
                if slots.last() != 0 {
                    assert(kept == non_null(init).push(slots.last()));
                    assert(non_null(init)[i] == c);
                }
            }
            lemma_filter_subset(init, c);
            let i = choose|i: int| 0 <= i < init.len() && init[i] == c;
            assert(slots[i] == c);
        }
    }
}

/// What the tracer asks of its caller.
#[derive(PartialEq, Eq, Copy, Clone, Debug, Structural)]
pub enum TraceStep {
    /// Read the slots of this object, which is now marked, and hand them
    /// back with `push_slots`.
    Scan(ObjectReference),
    /// Nothing waits, but objects are out for scanning: ask again when
    /// their slots have come back.
    Wait,
    /// The trace has ended.
    Done,
}

/// Whether `next` takes the tracer and the spaces from the first three
/// values to the last three with the result `r`: it passes over the waiting
/// references whose objects are marked, from the last one down, and stops at
/// the first whose object is not, which it marks and hands out.
pub open spec fn next_spec(
    before: TracerView,
    immix: ImmixSpaceView,
    lo: FreeListView,
    after: TracerView,
    immix_after: ImmixSpaceView,
    lo_after: FreeListView,
    r: Result<TraceStep, HeapError>,
) -> bool {
    let left = after.queue.len() as int;
    &&& left <= before.queue.len()
    &&& after.queue == before.queue.take(left)
    &&& match r {
        Ok(TraceStep::Scan(obj)) => {
            &&& left < before.queue.len()
            &&& before.queue[left] == obj@
            &&& forall|j: int|
                left < j < before.queue.len() ==> is_marked(immix, lo, #[trigger] before.queue[j])
            &&& resident(immix, lo, obj@)
            &&& !is_marked(immix, lo, obj@)
            &&& after.pending == before.pending.push(obj@)
            &&& after.log == before.log.push(obj@)
            &&& immix.contains(obj@) ==> immix_after == immix_marked(immix, obj@) && lo_after == lo
            &&& !immix.contains(obj@) ==> immix_after == immix && lo_after == lo_marked(lo, obj@)
        },
        Ok(TraceStep::Wait) => {
            &&& left == 0
            &&& forall|j: int|
                0 <= j < before.queue.len() ==> is_marked(immix, lo, #[trigger] before.queue[j])
            &&& before.pending.len() > 0
            &&& after.pending == before.pending
            &&& after.log == before.log
            &&& immix_after == immix
            &&& lo_after == lo
        },
        Ok(TraceStep::Done) => {
            &&& left == 0
            &&& forall|j: int|
                0 <= j < before.queue.len() ==> is_marked(immix, lo, #[trigger] before.queue[j])
            &&& before.pending.len() == 0
            &&& after.pending == before.pending
            &&& after.log == before.log
            &&& immix_after == immix
            &&& lo_after == lo
        },
        Err(e) => {
            &&& e == HeapError::OutOfCoverage
            &&& left < before.queue.len()
            &&& forall|j: int|
                left < j < before.queue.len() ==> is_marked(immix, lo, #[trigger] before.queue[j])
            &&& !resident(immix, lo, before.queue[left])
            &&& after.pending == before.pending
            &&& after.log == before.log
            &&& immix_after == immix
            &&& lo_after == lo
        },
    }
}

/// Whether `index` is the place of the first `obj` in `pending`.
pub open spec fn first_at(pending: Seq<int>, obj: int, index: int) -> bool {
    &&& 0 <= index < pending.len()
    &&& pending[index] == obj
    &&& forall|j: int| 0 <= j < index ==> pending[j] != obj
}

pub struct Tracer {
    queue: Vec<ObjectReference>,
    pending: Vec<ObjectReference>,
    log: Ghost<Seq<int>>,
}

impl View for Tracer {
    type V = TracerView;

    closed spec fn view(&self) -> TracerView {
        TracerView { queue: refs_of(self.queue@), pending: refs_of(self.pending@), log: self.log@ }
    }
}

impl Tracer {
    /// A tracer with the roots that are not null waiting, in their order.
    pub fn new(roots: &Vec<ObjectReference>) -> (r: Tracer)
        ensures
            r@ == (TracerView {
                queue: non_null(refs_of(roots@)),
                pending: Seq::empty(),
                log: Seq::empty(),
            }),
    {
        let mut t = Tracer { queue: Vec::new(), pending: Vec::new(), log: Ghost(Seq::empty()) };
        t.push_non_null(roots);
        assert(Seq::<int>::empty() + non_null(refs_of(roots@)) =~= non_null(refs_of(roots@)));
        assert(t@.pending =~= Seq::<int>::empty());
        t
    }

    /// Appends the references of `refs` that are not null to the queue.
    fn push_non_null(&mut self, refs: &Vec<ObjectReference>)
        ensures
            final(self)@ == (TracerView {
                queue: old(self)@.queue + non_null(refs_of(refs@)),
                ..old(self)@
            }),
    {
        let ghost all = refs_of(refs@);
        let mut i: usize = 0;
        proof {
            assert(all.take(0) =~= Seq::<int>::empty());
            reveal(Seq::filter);
            assert(non_null(all.take(0)) =~= Seq::<int>::empty());
            assert(self@.queue =~= old(self)@.queue + non_null(all.take(0)));
        }
        while i < refs.len()
            invariant
                i <= refs@.len(),
                all == refs_of(refs@),
                self@.queue == old(self)@.queue + non_null(all.take(i as int)),
                self@.pending == old(self)@.pending,
                self@.log == old(self)@.log,
            decreases refs@.len() - i,
        {
            let r = refs[i];
            proof {
                reveal(Seq::filter);
                assert(all.take(i + 1).drop_last() =~= all.take(i as int));
                assert(all.take(i + 1).last() == r@);
            }
            let ghost waiting = self@.queue;
            if !r.is_null() {
                self.queue.push(r);
                proof {
                    assert(self@.queue =~= waiting.push(r@));
                    assert(non_null(all.take(i + 1)) =~= non_null(all.take(i as int)).push(r@));
                    assert(self@.queue =~= old(self)@.queue + non_null(all.take(i + 1)));
                }
            }
            i += 1;
        }
        proof {
            assert(all.take(i as int) =~= all);
        }
    }

    /// Whether the trace has ended.
    pub fn is_finished(&self) -> (r: bool)
        ensures
            r == self@.finished(),
    {
        self.queue.len() == 0 && self.pending.len() == 0
    }

    /// Takes the next object to scan from the queue: passes over the
    /// waiting references whose objects are marked already, marks the first
    /// object that is not, and hands it out. Fails with `OutOfCoverage` at a
    /// reference that points into neither space.
    pub fn next(&mut self, immix: &mut ImmixSpace, lo: &mut FreeListSpace) -> (r: Result<
        TraceStep,
        HeapError,
    >)
        requires
            old(immix).wf(),
            old(lo)@.wf(),
        ensures
            final(immix).wf(),
            final(lo)@.wf(),
            next_spec(
                old(self)@,
                old(immix)@,
                old(lo)@,
                final(self)@,
                final(immix)@,
                final(lo)@,
                r,
            ),
            forall|g: ObjectGraph| #[trigger]
                old(self)@.inv(g, old(immix)@, old(lo)@) ==> r is Ok && final(self)@.inv(
                    g,
                    final(immix)@,
                    final(lo)@,
                ),
    {
        let ghost t0 = self@;
        let ghost i0 = immix@;
        let ghost l0 = lo@;
        proof {
            immix.lemma_wf();
            assert(t0.queue.take(t0.queue.len() as int) =~= t0.queue);
        }
        loop
            invariant
                immix.wf(),
                lo@.wf(),
                immix@ == i0,
                lo@ == l0,
                i0.wf(),
                t0 == old(self)@,
                i0 == old(immix)@,
                l0 == old(lo)@,
                self@.queue.len() <= t0.queue.len(),
                self@.queue == t0.queue.take(self@.queue.len() as int),
                self@.pending == t0.pending,
                self@.log == t0.log,
                forall|j: int|
                    self@.queue.len() <= j < t0.queue.len() ==> is_marked(
                        i0,
                        l0,
                        #[trigger] t0.queue[j],
                    ),
                forall|g: ObjectGraph| #[trigger] t0.inv(g, i0, l0) ==> self@.inv(g, i0, l0),
            decreases self.queue@.len(),
        {
            let ghost cur = self@;
            match self.queue.pop() {
                None => {
                    let step = if self.pending.len() == 0 {
                        TraceStep::Done
                    } else {
                        TraceStep::Wait
                    };
                    return Ok(step);
                },
                Some(obj) => {
                    let addr = obj.to_address();
                    proof {
                        assert(cur.queue.last() == obj@);
                        assert(self@.queue =~= cur.queue.drop_last());
                        assert(self@.queue =~= t0.queue.take(self@.queue.len() as int));
                        assert(t0.queue[self@.queue.len() as int] == obj@);
                    }
                    let fresh: bool;
                    if immix.contains(addr) {
                        match immix.mark_object(addr) {
                            Ok(flipped) => {
                                fresh = flipped;
                            },
                            Err(e) => {
                                return Err(e);
                            },
                        }
                        proof {
                            immix.lemma_wf();
                            if !fresh {
                                crate::heap::gc::tracer::lemma_word_in_range(i0, obj@);
                                assert(immix@.marks =~= i0.marks);
                                assert(immix@ == i0);
                            }
                        }
                    } else if lo.contains(addr) {
                        if lo.is_live(addr) {
                            fresh = false;
                        } else {
                            lo.mark(addr);
                            fresh = true;
                        }
                    } else {
                        proof {
                            assert forall|g: ObjectGraph| #[trigger] t0.inv(g, i0, l0) implies false by {
                                assert(cur.inv(g, i0, l0));
                                assert(g.reachable(cur.queue[cur.queue.len() - 1]));
                                lemma_reachable_in_graph(g, obj@);
                            }
                        }
                        return Err(HeapError::OutOfCoverage);
                    }
                    if fresh {
                        self.pending.push(obj);
                        self.log = Ghost(self.log@.push(obj@));
                        proof {
                            assert(self@.pending =~= cur.pending.push(obj@));
                            assert(self@ == cur.handed_out());
                            assert forall|g: ObjectGraph| #[trigger] t0.inv(g, i0, l0) implies self@.inv(
                                g,
                                immix@,
                                lo@,
                            ) by {
                                lemma_hand_out(cur, g, i0, l0, immix@, lo@);
                            }
                        }
                        return Ok(TraceStep::Scan(obj));
                    }
                    proof {
                        assert(self@ == cur.skipped());
                        assert forall|g: ObjectGraph| #[trigger] t0.inv(g, i0, l0) implies self@.inv(
                            g,
                            i0,
                            l0,
                        ) by {
                            lemma_skip(cur, g, i0, l0);
                        }
                    }
                },
            }
        }
    }

    /// Takes the slots that the caller read from the object `obj`, which
    /// `next` handed out: those that are not null join the queue, and `obj`
    /// is no longer pending. Returns whether `obj` was pending; where it was
    /// not, nothing changes.
    pub fn push_slots(&mut self, obj: ObjectReference, slots: &Vec<ObjectReference>) -> (r: bool)
        ensures
            r == old(self)@.pending.contains(obj@),
            !r ==> final(self)@ == old(self)@,
            r ==> exists|index: int|
                first_at(old(self)@.pending, obj@, index) && final(self)@ == #[trigger] old(
                    self,
                )@.scanned(index, refs_of(slots@)),
            forall|g: ObjectGraph, immix: ImmixSpaceView, lo: FreeListView| #[trigger]
                old(self)@.inv(g, immix, lo) && r && g.slots.contains_key(obj@) && g.slots[obj@]
                    == refs_of(slots@) ==> final(self)@.inv(g, immix, lo),
    {
        let target: usize = obj.value();
        let mut i: usize = 0;
        while i < self.pending.len() && self.pending[i].value() != target
            invariant
                *self == *old(self),
                target == obj@,
                i <= self.pending@.len(),
                forall|j: int| 0 <= j < i ==> self@.pending[j] != obj@,
            decreases self.pending@.len() - i,
        {
            i += 1;
        }
        if i >= self.pending.len() {
            return false;
        }
        let ghost before = self@;
        assert(before.pending[i as int] == obj@);
        assert(first_at(before.pending, obj@, i as int));
        self.pending.remove(i);
        self.push_non_null(slots);
        proof {
            assert(self@.pending =~= before.pending.remove(i as int));
            assert(self@ == before.scanned(i as int, refs_of(slots@)));
            assert forall|g: ObjectGraph, immix: ImmixSpaceView, lo: FreeListView| #[trigger]
                before.inv(g, immix, lo) && g.slots.contains_key(obj@) && g.slots[obj@] == refs_of(
                    slots@,
                ) implies self@.inv(g, immix, lo) by {
                lemma_scanned(before, g, immix, lo, i as int, refs_of(slots@));
            }
        }
        true
    }
}

} // verus!
