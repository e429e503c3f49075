//! The large-object space: one node per allocation, marked by the tracer and
//! swept at the end of a collection.
//!
//! The space keeps the books only. The embedder obtains the bytes of a new
//! object from the host allocator and hands their address to [`FreeListSpace::allocate`];
//! [`FreeListSpace::sweep`] hands back the nodes whose bytes the embedder must
//! release.

use vstd::prelude::*;
use vstd::arithmetic::power2::is_pow2;
use vstd::layout::valid_layout;
use std::collections::VecDeque;
use crate::common::{Address, is_power_of_two};
use crate::error::HeapError;
use crate::heap::immix::immix_mutator::{ImmixMutatorLocal, MutatorState};

verus! {

#[derive(PartialEq, Eq, Copy, Clone, Debug, Structural)]
pub enum NodeMark {
    FreshAlloc,
    PrevLive,
    Live,
}

/// One large object: its bytes start at `start` and follow the layout
/// `size`, `align`.
#[derive(PartialEq, Eq, Copy, Clone, Debug, Structural)]
pub struct FreeListNode {
    id: usize,
    start: Address,
    size: usize,
    align: usize,
    mark: NodeMark,
}

/// What a node is, as plain values.
pub struct NodeView {
    pub id: nat,
    pub start: int,
    pub size: nat,
    pub align: nat,
    pub mark: NodeMark,
}

impl NodeView {
    /// The same node with another mark.
    pub open spec fn with_mark(self, mark: NodeMark) -> NodeView {
        NodeView { mark, ..self }
    }

    /// The node after a call of `mark` for the address `obj`.
    pub open spec fn marked_at(self, obj: int) -> NodeView {
        if self.start == obj {
            self.with_mark(NodeMark::Live)
        } else {
            self
        }
    }

    /// Whether the byte at `addr` belongs to this node.
    pub open spec fn covers(self, addr: int) -> bool {
        self.start <= addr < self.start + self.size
    }
}

impl View for FreeListNode {
    type V = NodeView;

    closed spec fn view(&self) -> NodeView {
        NodeView {
            id: self.id as nat,
            start: self.start@,
            size: self.size as nat,
            align: self.align as nat,
            mark: self.mark,
        }
    }
}

impl FreeListNode {
    pub fn set_mark(&mut self, mark: NodeMark)
        ensures
            final(self)@ == old(self)@.with_mark(mark),
    {
        self.mark = mark;
    }

    pub fn size(&self) -> (r: usize)
        ensures
            r == self@.size,
    {
        self.size
    }

    pub fn id(&self) -> (r: usize)
        ensures
            r == self@.id,
    {
        self.id
    }

    pub fn start(&self) -> (r: Address)
        ensures
            r@ == self@.start,
    {
        self.start
    }

    pub fn align(&self) -> (r: usize)
        ensures
            r == self@.align,
    {
        self.align
    }

    pub fn mark(&self) -> (r: NodeMark)
        ensures
            r == self@.mark,
    {
        self.mark
    }
}

/// The views of a list of nodes, in the list's order.
pub open spec fn node_views(nodes: Seq<FreeListNode>) -> Seq<NodeView> {
    nodes.map_values(|n: FreeListNode| n@)
}

/// The sum of the sizes of `nodes`.
pub open spec fn total_size(nodes: Seq<NodeView>) -> nat
    decreases nodes.len(),
{
    if nodes.len() == 0 {
        0
    } else {
        total_size(nodes.drop_last()) + nodes.last().size
    }
}

/// The nodes that the tracer has marked, in order.
pub open spec fn live_nodes(nodes: Seq<NodeView>) -> Seq<NodeView> {
    nodes.filter(|n: NodeView| n.mark == NodeMark::Live)
}

/// The nodes that the tracer has not marked, in order.
pub open spec fn dead_nodes(nodes: Seq<NodeView>) -> Seq<NodeView> {
    nodes.filter(|n: NodeView| n.mark != NodeMark::Live)
}

/// The list that a sweep leaves: the marked nodes, each demoted to
/// `PrevLive`.
pub open spec fn swept(nodes: Seq<NodeView>) -> Seq<NodeView> {
    live_nodes(nodes).map_values(|n: NodeView| n.with_mark(NodeMark::PrevLive))
}

/// The list after `mark` for the address `obj`.
pub open spec fn marked_at(nodes: Seq<NodeView>, obj: int) -> Seq<NodeView> {
    nodes.map_values(|n: NodeView| n.marked_at(obj))
}

/// Whether some node of `nodes` starts at `addr`.
pub open spec fn has_node_at(nodes: Seq<NodeView>, addr: int) -> bool {
    exists|i: int| 0 <= i < nodes.len() && (#[trigger] nodes[i]).start == addr
}

/// Whether some node of `nodes` starts at `addr` and is marked `Live`.
pub open spec fn has_live_node_at(nodes: Seq<NodeView>, addr: int) -> bool {
    exists|i: int|
        0 <= i < nodes.len() && (#[trigger] nodes[i]).start == addr && nodes[i].mark
            == NodeMark::Live
}

/// Whether no node of `nodes` is marked live: so it is between two
/// collections.
pub open spec fn no_live_nodes(nodes: Seq<NodeView>) -> bool {
    forall|i: int| 0 <= i < nodes.len() ==> (#[trigger] nodes[i]).mark != NodeMark::Live
}

/// Whether each node of `nodes` is a sound record with an id below
/// `next_id`, and the ids fall from the front to the back, so that none
/// occurs twice and a newer node stands before an older one.
pub open spec fn nodes_wf(nodes: Seq<NodeView>, next_id: nat) -> bool {
    &&& forall|i: int|
        0 <= i < nodes.len() ==> {
            &&& (#[trigger] nodes[i]).id < next_id
            &&& nodes[i].size > 0
            &&& nodes[i].start != 0
            &&& nodes[i].start % (nodes[i].align as int) == 0
            &&& is_pow2(nodes[i].align as int)
        }
    &&& forall|i: int, j: int|
        0 <= i < j < nodes.len() ==> (#[trigger] nodes[i]).id > (#[trigger] nodes[j]).id
}

/// What the space is, as plain values. The front of `nodes` is the newest
/// allocation.
pub struct FreeListView {
    pub nodes: Seq<NodeView>,
    pub next_id: nat,
    pub capacity: nat,
    pub used_bytes: nat,
}

impl FreeListView {
    /// The invariant of the space.
    pub open spec fn wf(self) -> bool {
        &&& total_size(self.nodes) == self.used_bytes
        &&& self.used_bytes <= self.capacity
        &&& nodes_wf(self.nodes, self.next_id)
    }

    /// Whether the space takes an object of `size` bytes that the host
    /// placed at `start`: there is room under the capacity, an id is left,
    /// and the host's address is neither null nor misaligned.
    pub open spec fn accepts(self, size: nat, align: nat, start: int) -> bool {
        &&& self.used_bytes + size <= self.capacity
        &&& self.next_id < usize::MAX
        &&& start != 0
        &&& start % (align as int) == 0
    }

    /// The node that `allocate` records for an accepted object.
    pub open spec fn fresh_node(self, size: nat, align: nat, start: int) -> NodeView {
        NodeView { id: self.next_id, start, size, align, mark: NodeMark::FreshAlloc }
    }

    /// The space after `allocate` has accepted an object.
    pub open spec fn with_node(self, size: nat, align: nat, start: int) -> FreeListView {
        FreeListView {
            nodes: seq![self.fresh_node(size, align, start)] + self.nodes,
            next_id: self.next_id + 1,
            capacity: self.capacity,
            used_bytes: self.used_bytes + size,
        }
    }

    /// Whether the space holds an object that starts at `addr`.
    pub open spec fn owns(self, addr: int) -> bool {
        has_node_at(self.nodes, addr)
    }
}

/// Adding a node at the front adds its size to the total.
proof fn lemma_total_size_front(first: NodeView, rest: Seq<NodeView>)
    ensures
        total_size(seq![first] + rest) == first.size + total_size(rest),
    decreases rest.len(),
{
    let all = seq![first] + rest;
    if rest.len() == 0 {
        assert(all.drop_last() =~= Seq::<NodeView>::empty());
        assert(total_size(all.drop_last()) == 0);
    } else {
        assert(all.drop_last() =~= seq![first] + rest.drop_last());
        lemma_total_size_front(first, rest.drop_last());
    }
}

/// Adding a node at the back adds its size to the total.
proof fn lemma_total_size_push(nodes: Seq<NodeView>, last: NodeView)
    ensures
        total_size(nodes.push(last)) == total_size(nodes) + last.size,
{
    assert(nodes.push(last).drop_last() =~= nodes);
}

/// Marking changes no size.
proof fn lemma_total_size_marked(nodes: Seq<NodeView>, obj: int)
    ensures
        total_size(marked_at(nodes, obj)) == total_size(nodes),
    decreases nodes.len(),
{
    if nodes.len() > 0 {
        assert(marked_at(nodes, obj).drop_last() =~= marked_at(nodes.drop_last(), obj));
        lemma_total_size_marked(nodes.drop_last(), obj);
    }
}

/// What a sweep keeps and what it reclaims add up to what was there.
pub proof fn lemma_total_size_split(nodes: Seq<NodeView>)
    ensures
        total_size(swept(nodes)) == total_size(live_nodes(nodes)),
        total_size(live_nodes(nodes)) + total_size(dead_nodes(nodes)) == total_size(nodes),
    decreases nodes.len(),
{
    reveal(Seq::filter);
    if nodes.len() > 0 {
        let init = nodes.drop_last();
        let last = nodes.last();
        lemma_total_size_split(init);
        if last.mark == NodeMark::Live {
            assert(live_nodes(nodes) =~= live_nodes(init).push(last));
            assert(dead_nodes(nodes) =~= dead_nodes(init));
            assert(swept(nodes) =~= swept(init).push(last.with_mark(NodeMark::PrevLive)));
            lemma_total_size_push(live_nodes(init), last);
            lemma_total_size_push(swept(init), last.with_mark(NodeMark::PrevLive));
        } else {
            assert(live_nodes(nodes) =~= live_nodes(init));
            assert(dead_nodes(nodes) =~= dead_nodes(init).push(last));
            assert(swept(nodes) =~= swept(init));
            lemma_total_size_push(dead_nodes(init), last);
        }
    } else {
        assert(swept(nodes) =~= Seq::<NodeView>::empty());
    }
}

/// What one more node adds to the two lists that a sweep makes.
pub(crate) proof fn lemma_sweep_step(nodes: Seq<NodeView>, k: int)
    requires
        0 <= k < nodes.len(),
    ensures
        nodes[k].mark == NodeMark::Live ==> {
            &&& swept(nodes.take(k + 1)) == swept(nodes.take(k)).push(
                nodes[k].with_mark(NodeMark::PrevLive),
            )
            &&& dead_nodes(nodes.take(k + 1)) == dead_nodes(nodes.take(k))
        },
        nodes[k].mark != NodeMark::Live ==> {
            &&& swept(nodes.take(k + 1)) == swept(nodes.take(k))
            &&& dead_nodes(nodes.take(k + 1)) == dead_nodes(nodes.take(k)).push(nodes[k])
        },
{
    reveal(Seq::filter);
    let now = nodes.take(k + 1);
    assert(now.drop_last() =~= nodes.take(k));
    assert(now.last() == nodes[k]);
    if nodes[k].mark == NodeMark::Live {
        assert(live_nodes(now) =~= live_nodes(nodes.take(k)).push(nodes[k]));
        assert(swept(now) =~= swept(nodes.take(k)).push(nodes[k].with_mark(NodeMark::PrevLive)));
    } else {
        assert(live_nodes(now) =~= live_nodes(nodes.take(k)));
        assert(swept(now) =~= swept(nodes.take(k)));
    }
}

/// A sweep keeps no id at or below a bound that all ids were above.
proof fn lemma_swept_ids_above(nodes: Seq<NodeView>, bound: nat)
    requires
        forall|j: int| 0 <= j < nodes.len() ==> (#[trigger] nodes[j]).id > bound,
    ensures
        forall|i: int| 0 <= i < swept(nodes).len() ==> (#[trigger] swept(nodes)[i]).id > bound,
    decreases nodes.len(),
{
    if nodes.len() > 0 {
        let init = nodes.drop_last();
        assert(nodes.take(nodes.len() - 1) =~= init);
        assert(nodes.take(nodes.len() as int) =~= nodes);
        lemma_sweep_step(nodes, nodes.len() - 1);
        assert forall|j: int| 0 <= j < init.len() implies (#[trigger] init[j]).id > bound by {
            assert(init[j] == nodes[j]);
        }
        lemma_swept_ids_above(init, bound);
    } else {
        assert(swept(nodes) =~= Seq::<NodeView>::empty());
    }
}

/// A sweep leaves a list that is well formed where the list before was.
pub proof fn lemma_swept_wf(nodes: Seq<NodeView>, next_id: nat)
    requires
        nodes_wf(nodes, next_id),
    ensures
        nodes_wf(swept(nodes), next_id),
    decreases nodes.len(),
{
    if nodes.len() > 0 {
        let init = nodes.drop_last();
        let last = nodes.last();
        assert(nodes.take(nodes.len() - 1) =~= init);
        assert(nodes.take(nodes.len() as int) =~= nodes);
        lemma_sweep_step(nodes, nodes.len() - 1);
        assert(nodes_wf(init, next_id)) by {
            assert forall|i: int| 0 <= i < init.len() implies {
                &&& (#[trigger] init[i]).id < next_id
                &&& init[i].size > 0
                &&& init[i].start != 0
                &&& init[i].start % (init[i].align as int) == 0
                &&& is_pow2(init[i].align as int)
            } by {
                assert(init[i] == nodes[i]);
            }
            assert forall|i: int, j: int| 0 <= i < j < init.len() implies (#[trigger] init[i]).id
                > (#[trigger] init[j]).id by {
                assert(init[i] == nodes[i]);
                assert(init[j] == nodes[j]);
            }
        }
        lemma_swept_wf(init, next_id);
        assert forall|j: int| 0 <= j < init.len() implies (#[trigger] init[j]).id > last.id by {
            assert(init[j] == nodes[j]);
            assert(last == nodes[nodes.len() - 1]);
        }
        lemma_swept_ids_above(init, last.id);
        if last.mark == NodeMark::Live {
            let kept = swept(init);
            let all = swept(nodes);
            assert(all == kept.push(last.with_mark(NodeMark::PrevLive)));
            assert forall|i: int| 0 <= i < all.len() implies {
                &&& (#[trigger] all[i]).id < next_id
                &&& all[i].size > 0
                &&& all[i].start != 0
                &&& all[i].start % (all[i].align as int) == 0
                &&& is_pow2(all[i].align as int)
            } by {
                if i < kept.len() {
                    assert(all[i] == kept[i]);
                }
            }
            assert forall|i: int, j: int| 0 <= i < j < all.len() implies (#[trigger] all[i]).id > (
            #[trigger] all[j]).id by {
                assert(all[i] == kept[i]);
                if j < kept.len() {
                    assert(all[j] == kept[j]);
                }
            }
        }
    } else {
        assert(swept(nodes) =~= Seq::<NodeView>::empty());
    }
}

pub struct FreeListSpace {
    current_nodes: VecDeque<FreeListNode>,
    node_id: usize,
    size: usize,
    used_bytes: usize,
}

impl View for FreeListSpace {
    type V = FreeListView;

    closed spec fn view(&self) -> FreeListView {
        FreeListView {
            nodes: node_views(self.current_nodes@),
            next_id: self.node_id as nat,
            capacity: self.size as nat,
            used_bytes: self.used_bytes as nat,
        }
    }
}

/// The collections that an allocation of a large object waits for before
/// it gives up.
pub const MAX_UNPRODUCTIVE_COLLECTIONS: usize = 2;

/// What the caller of `alloc_large` has to do next.
#[derive(PartialEq, Eq, Copy, Clone, Debug, Structural)]
pub enum LargeAllocAction {
    /// The collector has asked the mutator to stop: park, then ask again.
    Park,
    /// The object fits: get its bytes from the host allocator and record
    /// them in the space.
    Place,
    /// The object does not fit: ask for a collection, wait for it, then ask
    /// again.
    Collect,
    /// The object does not fit and collections have not made room: fail
    /// with `OutOfMemory`.
    Fail,
}

/// What `alloc_large` answers for a mutator in `state`, where the space is
/// `space` and `collections` collections have ended since the mutator first
/// asked.
pub open spec fn large_alloc_action(
    state: MutatorState,
    space: FreeListView,
    size: nat,
    collections: nat,
) -> LargeAllocAction {
    if state == MutatorState::YieldRequested {
        LargeAllocAction::Park
    } else if space.used_bytes + size <= space.capacity {
        LargeAllocAction::Place
    } else if collections < MAX_UNPRODUCTIVE_COLLECTIONS {
        LargeAllocAction::Collect
    } else {
        LargeAllocAction::Fail
    }
}

/// One round of the allocation of a large object: the yieldpoint first,
/// then the space's capacity, then whether another collection is worth
/// waiting for.
pub fn alloc_large(
    size: usize,
    mutator: &ImmixMutatorLocal,
    space: &FreeListSpace,
    collections: usize,
) -> (r: LargeAllocAction)
    requires
        space@.wf(),
    ensures
        r == large_alloc_action(mutator@.state, space@, size as nat, collections as nat),
{
    if mutator.yieldpoint() {
        LargeAllocAction::Park
    } else if space.has_room(size) {
        LargeAllocAction::Place
    } else if collections < MAX_UNPRODUCTIVE_COLLECTIONS {
        LargeAllocAction::Collect
    } else {
        LargeAllocAction::Fail
    }
}

/// Whether `size` and `align` are a layout that the space takes: not empty,
/// and one that the host allocator accepts. `InvalidLayout` where they are
/// not.
pub fn check_layout(size: usize, align: usize) -> (r: Result<(), HeapError>)
    ensures
        r is Ok <==> size > 0 && valid_layout(size, align),
        r is Err ==> r == Err::<(), HeapError>(HeapError::InvalidLayout),
{
    if size > 0 && is_valid_layout(size, align) {
        Ok(())
    } else {
        Err(HeapError::InvalidLayout)
    }
}

/// Whether `size` and `align` make a layout that the host allocator takes:
/// `align` is a power of two, and `size` rounded up to it does not pass
/// `isize::MAX`.
pub fn is_valid_layout(size: usize, align: usize) -> (r: bool)
    ensures
        r == valid_layout(size, align),
{
    if !is_power_of_two(align) {
        return false;
    }
    proof {
        crate::common::lemma_pow2_single_bit(align);
    }
    let top: usize = isize::MAX as usize;
    let slack: usize = top % align;
    assert(slack <= top) by (nonlinear_arith)
        requires
            slack == top % align,
            align > 0,
    ;
    size <= top - slack
}

impl FreeListSpace {
    /// An empty space that holds at most `size` bytes.
    pub fn new(size: usize) -> (r: FreeListSpace)
        ensures
            r@.wf(),
            r@ == (FreeListView { nodes: Seq::empty(), next_id: 0, capacity: size as nat, used_bytes: 0 }),
    {
        let r = FreeListSpace {
            current_nodes: VecDeque::new(),
            node_id: 0,
            size: size,
            used_bytes: 0,
        };
        assert(r@.nodes =~= Seq::<NodeView>::empty());
        r
    }

    /// The capacity in bytes.
    pub fn size(&self) -> (r: usize)
        ensures
            r == self@.capacity,
    {
        self.size
    }

    /// The bytes that the objects of the space take.
    pub fn used_bytes(&self) -> (r: usize)
        ensures
            r == self@.used_bytes,
    {
        self.used_bytes
    }

    /// Whether an object of `size` bytes fits under the capacity.
    pub fn has_room(&self, size: usize) -> (r: bool)
        requires
            self@.wf(),
        ensures
            r == (self@.used_bytes + size <= self@.capacity),
    {
        size <= self.size - self.used_bytes
    }

    /// Records an object of `size` bytes that the host allocator placed at
    /// `start`, as the newest node, and returns its address. Returns `None`
    /// and changes nothing where the space does not accept the object.
    pub fn allocate(&mut self, size: usize, align: usize, start: Address) -> (r: Option<Address>)
        requires
            old(self)@.wf(),
            size > 0,
            valid_layout(size, align),
        ensures
            final(self)@.wf(),
            old(self)@.accepts(size as nat, align as nat, start@) ==> {
                &&& r == Some(start)
                &&& final(self)@ == old(self)@.with_node(size as nat, align as nat, start@)
            },
            !old(self)@.accepts(size as nat, align as nat, start@) ==> {
                &&& r is None
                &&& final(self)@ == old(self)@
            },
            r matches Some(a) ==> {
                &&& a@ % (align as int) == 0
                &&& final(self)@.owns(a@)
                &&& final(self)@.used_bytes == old(self)@.used_bytes + size
            },
    {
        proof {
            crate::common::lemma_pow2_single_bit(align);
        }
        if size > self.size - self.used_bytes || self.node_id == usize::MAX || start.is_zero()
            || !start.is_aligned_to(align) {
            return None;
        }
        let node = FreeListNode {
            id: self.node_id,
            start: start,
            size: size,
            align: align,
            mark: NodeMark::FreshAlloc,
        };
        self.current_nodes.push_front(node);
        self.node_id += 1;
        self.used_bytes += size;
        proof {
            let before = old(self)@;
            let after = self@;
            assert(after.nodes =~= seq![node@] + before.nodes);
            assert(node@ == before.fresh_node(size as nat, align as nat, start@));
            lemma_total_size_front(node@, before.nodes);
            assert(after.nodes[0].start == start@);
            assert forall|i: int, j: int| 0 <= i < j < after.nodes.len() implies (
            #[trigger] after.nodes[i]).id > (#[trigger] after.nodes[j]).id by {
                if i > 0 {
                    assert(after.nodes[i] == before.nodes[i - 1]);
                }
                assert(after.nodes[j] == before.nodes[j - 1]);
            }
            assert forall|i: int| 0 <= i < after.nodes.len() implies {
                &&& (#[trigger] after.nodes[i]).id < after.next_id
                &&& after.nodes[i].size > 0
                &&& after.nodes[i].start != 0
                &&& after.nodes[i].start % (after.nodes[i].align as int) == 0
                &&& is_pow2(after.nodes[i].align as int)
            } by {
                if i > 0 {
                    assert(after.nodes[i] == before.nodes[i - 1]);
                }
            }
        }
        Some(start)
    }

    /// Marks the object that starts at `obj` as live.
    pub fn mark(&mut self, obj: Address)
        requires
            old(self)@.wf(),
        ensures
            final(self)@.wf(),
            final(self)@ == (FreeListView { nodes: marked_at(old(self)@.nodes, obj@), ..old(self)@ }),
    {
        let ghost before = self.current_nodes@;
        let mut rest = VecDeque::new();
        std::mem::swap(&mut rest, &mut self.current_nodes);
        let target: usize = obj.as_usize();
        let ghost mut done: int = 0;
        loop
            invariant
                0 <= done <= before.len(),
                rest@ == before.skip(done),
                self.current_nodes@.len() == done,
                forall|i: int|
                    0 <= i < done ==> (#[trigger] self.current_nodes@[i])@ == before[i]@.marked_at(
                        obj@,
                    ),
                target == obj@,
                self.node_id == old(self).node_id,
                self.size == old(self).size,
                self.used_bytes == old(self).used_bytes,
            ensures
                done == before.len(),
            decreases before.len() - done,
        {
            match rest.pop_front() {
                Some(node) => {
                    let mut node = node;
                    assert(node == before[done]);
                    if node.start.as_usize() == target {
                        node.set_mark(NodeMark::Live);
                    }
                    self.current_nodes.push_back(node);
                    proof {
                        assert(rest@ =~= before.skip(done + 1));
                        done = done + 1;
                    }
                },
                None => {
                    break ;
                },
            }
        }
        proof {
            let was = old(self)@;
            let now = self@;
            assert(now.nodes =~= marked_at(was.nodes, obj@));
            lemma_total_size_marked(was.nodes, obj@);
            assert forall|i: int| 0 <= i < now.nodes.len() implies {
                &&& (#[trigger] now.nodes[i]).id < now.next_id
                &&& now.nodes[i].size > 0
                &&& now.nodes[i].start != 0
                &&& now.nodes[i].start % (now.nodes[i].align as int) == 0
                &&& is_pow2(now.nodes[i].align as int)
            } by {
                assert(now.nodes[i] == was.nodes[i].marked_at(obj@));
            }
            assert forall|i: int, j: int| 0 <= i < j < now.nodes.len() implies (
            #[trigger] now.nodes[i]).id > (#[trigger] now.nodes[j]).id by {
                assert(now.nodes[i] == was.nodes[i].marked_at(obj@));
                assert(now.nodes[j] == was.nodes[j].marked_at(obj@));
            }
        }
    }

    /// Ends a collection: keeps the nodes that the tracer marked, demoted to
    /// `PrevLive`, and drops every other node. Returns the dropped nodes,
    /// whose bytes go back to the host allocator.
    pub fn sweep(&mut self) -> (reclaimed: Vec<FreeListNode>)
        requires
            old(self)@.wf(),
        ensures
            final(self)@.wf(),
            final(self)@ == (FreeListView {
                nodes: swept(old(self)@.nodes),
                used_bytes: total_size(live_nodes(old(self)@.nodes)),
                ..old(self)@
            }),
            node_views(reclaimed@) == dead_nodes(old(self)@.nodes),
    {
        let ghost before = node_views(self.current_nodes@);
        let mut rest = VecDeque::new();
        std::mem::swap(&mut rest, &mut self.current_nodes);
        let mut reclaimed: Vec<FreeListNode> = Vec::new();
        let mut used: usize = 0;
        let ghost mut done: int = 0;
        proof {
            assert(before.skip(0) =~= before);
            assert(before.take(0) =~= Seq::<NodeView>::empty());
            assert(swept(before.take(0)) =~= Seq::<NodeView>::empty());
            assert(dead_nodes(before.take(0)) =~= Seq::<NodeView>::empty());
            assert(node_views(self.current_nodes@) =~= Seq::<NodeView>::empty());
            assert(node_views(reclaimed@) =~= Seq::<NodeView>::empty());
        }
        loop
            invariant
                0 <= done <= before.len(),
                node_views(rest@) == before.skip(done),
                node_views(self.current_nodes@) == swept(before.take(done)),
                node_views(reclaimed@) == dead_nodes(before.take(done)),
                used == total_size(swept(before.take(done))),
                used + total_size(before.skip(done)) <= old(self).used_bytes,
                self.node_id == old(self).node_id,
                self.size == old(self).size,
            ensures
                done == before.len(),
            decreases before.len() - done,
        {
            let ghost pending = rest@;
            match rest.pop_front() {
                Some(node) => {
                    let mut node = node;
                    proof {
                        assert(node@ == before[done]) by {
                            assert(node_views(pending)[0] == before.skip(done)[0]);
                        }
                        assert(node_views(rest@) =~= before.skip(done + 1)) by {
                            assert forall|i: int| 0 <= i < rest@.len() implies node_views(rest@)[i]
                                == before.skip(done + 1)[i] by {
                                assert(rest@[i] == pending[i + 1]);
                                assert(node_views(pending)[i + 1] == before.skip(done)[i + 1]);
                            }
                        }
                        assert(before.skip(done) =~= seq![before[done]] + before.skip(done + 1));
                        lemma_total_size_front(before[done], before.skip(done + 1));
                        lemma_sweep_step(before, done);
                        lemma_total_size_push(
                            swept(before.take(done)),
                            before[done].with_mark(NodeMark::PrevLive),
                        );
                    }
                    match node.mark {
                        NodeMark::Live => {
                            node.set_mark(NodeMark::PrevLive);
                            used += node.size();
                            self.current_nodes.push_back(node);
                            proof {
                                assert(node_views(self.current_nodes@) =~= swept(
                                    before.take(done),
                                ).push(node@));
                            }
                        },
                        _ => {
                            reclaimed.push(node);
                            proof {
                                assert(node_views(reclaimed@) =~= dead_nodes(
                                    before.take(done),
                                ).push(node@));
                            }
                        },
                    }
                    proof {
                        done = done + 1;
                    }
                },
                None => {
                    proof {
                        assert(node_views(rest@).len() == 0);
                    }
                    break ;
                },
            }
        }
        self.used_bytes = used;
        proof {
            assert(before.take(done) =~= before);
            lemma_total_size_split(before);
            lemma_swept_wf(before, old(self)@.next_id);
        }
        reclaimed
    }

    /// Whether the space holds an object that starts at `addr`.
    pub fn contains(&self, addr: Address) -> (r: bool)
        ensures
            r == self@.owns(addr@),
    {
        let target: usize = addr.as_usize();
        let mut i: usize = 0;
        while i < self.current_nodes.len()
            invariant
                i <= self.current_nodes@.len(),
                target == addr@,
                forall|k: int| 0 <= k < i ==> (#[trigger] self@.nodes[k]).start != addr@,
            decreases self.current_nodes@.len() - i,
        {
            assert(self@.nodes[i as int] == self.current_nodes@[i as int]@);
            if self.current_nodes[i].start.as_usize() == target {
                return true;
            }
            i += 1;
        }
        false
    }

    /// Whether the object that starts at `addr` is marked live.
    pub fn is_live(&self, addr: Address) -> (r: bool)
        ensures
            r == has_live_node_at(self@.nodes, addr@),
    {
        let target: usize = addr.as_usize();
        let mut i: usize = 0;
        while i < self.current_nodes.len()
            invariant
                i <= self.current_nodes@.len(),
                target == addr@,
                forall|k: int|
                    0 <= k < i ==> !((#[trigger] self@.nodes[k]).start == addr@ && self@.nodes[k].mark
                        == NodeMark::Live),
            decreases self.current_nodes@.len() - i,
        {
            assert(self@.nodes[i as int] == self.current_nodes@[i as int]@);
            let node = &self.current_nodes[i];
            if node.start.as_usize() == target && node.mark == NodeMark::Live {
                return true;
            }
            i += 1;
        }
        false
    }

    pub fn current_nodes(&self) -> (r: &VecDeque<FreeListNode>)
        ensures
            node_views(r@) == self@.nodes,
    {
        &self.current_nodes
    }

    /// Hands out the list itself. What the caller leaves in it becomes the
    /// list of the space; the counters stay as they are.
    pub fn current_nodes_mut(&mut self) -> (r: &mut VecDeque<FreeListNode>)
        ensures
            node_views(r@) == old(self)@.nodes,
            final(self)@ == (FreeListView { nodes: node_views(final(r)@), ..old(self)@ }),
    {
        &mut self.current_nodes
    }
}

} // verus!
