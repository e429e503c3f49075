//! The object graph that a collection works on, as the collector sees it:
//! which objects there are, which references each of them holds, and which
//! of them the mutators name as roots.

use vstd::prelude::*;
use crate::common::POINTER_SIZE;
use crate::heap::freelist::{has_live_node_at, has_node_at, FreeListView};
use crate::heap::immix::immix_space::ImmixSpaceView;

verus! {

/// The objects of the heap, each by the address of its base, with the
/// references that its slots hold (0 for a null slot), and the roots.
pub struct ObjectGraph {
    pub slots: Map<int, Seq<int>>,
    pub roots: Set<int>,
}

impl ObjectGraph {
    /// Whether a slot of `from` refers to `to`.
    pub open spec fn edge(self, from: int, to: int) -> bool {
        self.slots.contains_key(from) && self.slots[from].contains(to) && to != 0
    }

    /// Whether `path` leads from a root along references.
    pub open spec fn is_path(self, path: Seq<int>) -> bool {
        &&& path.len() > 0
        &&& self.roots.contains(path[0])
        &&& path[0] != 0
        &&& forall|i: int| 0 <= i < path.len() - 1 ==> self.edge(#[trigger] path[i], path[i + 1])
    }

    /// Whether `obj` can be reached from a root.
    pub open spec fn reachable(self, obj: int) -> bool {
        exists|path: Seq<int>| #[trigger] self.is_path(path) && path.last() == obj
    }

    /// Whether the graph is closed: every root and every reference names
    /// an object of the graph, and no object lies at address 0.
    pub open spec fn closed(self) -> bool {
        &&& !self.slots.contains_key(0)
        &&& forall|r: int| #[trigger] self.roots.contains(r) && r != 0 ==> self.slots.contains_key(r)
        &&& forall|from: int, to: int| #[trigger]
            self.edge(from, to) ==> self.slots.contains_key(to)
    }
}

/// A root is reachable.
pub proof fn lemma_root_reachable(g: ObjectGraph, root: int)
    requires
        g.roots.contains(root),
        root != 0,
    ensures
        g.reachable(root),
{
    let path = seq![root];
    assert(g.is_path(path));
    assert(path.last() == root);
}

/// What a reachable object refers to is reachable.
pub proof fn lemma_edge_reachable(g: ObjectGraph, from: int, to: int)
    requires
        g.reachable(from),
        g.edge(from, to),
    ensures
        g.reachable(to),
{
    let path = choose|path: Seq<int>| #[trigger] g.is_path(path) && path.last() == from;
    let longer = path.push(to);
    assert forall|i: int| 0 <= i < longer.len() - 1 implies g.edge(
        #[trigger] longer[i],
        longer[i + 1],
    ) by {
        if i < path.len() - 1 {
            assert(g.edge(path[i], path[i + 1]));
        }
    }
    assert(g.is_path(longer));
    assert(longer.last() == to);
}

/// A reachable object is an object of a closed graph.
pub proof fn lemma_reachable_in_graph(g: ObjectGraph, obj: int)
    requires
        g.closed(),
        g.reachable(obj),
    ensures
        g.slots.contains_key(obj),
        obj != 0,
{
    let path = choose|path: Seq<int>| #[trigger] g.is_path(path) && path.last() == obj;
    if path.len() > 1 {
        let i = path.len() - 2;
        assert(g.edge(path[i], path[i + 1]));
    }
}

/// A set that holds the roots and is closed under references holds every
/// reachable object.
pub proof fn lemma_closed_set_holds_reachable(g: ObjectGraph, set: Set<int>, obj: int)
    requires
        forall|r: int| #[trigger] g.roots.contains(r) && r != 0 ==> set.contains(r),
        forall|from: int, to: int| set.contains(from) && #[trigger] g.edge(from, to) ==> set.contains(to),
        g.reachable(obj),
    ensures
        set.contains(obj),
{
    let path = choose|path: Seq<int>| #[trigger] g.is_path(path) && path.last() == obj;
    lemma_path_in_set(g, set, path, path.len() - 1);
}

proof fn lemma_path_in_set(g: ObjectGraph, set: Set<int>, path: Seq<int>, k: int)
    requires
        forall|r: int| #[trigger] g.roots.contains(r) && r != 0 ==> set.contains(r),
        forall|from: int, to: int| set.contains(from) && #[trigger] g.edge(from, to) ==> set.contains(to),
        g.is_path(path),
        0 <= k < path.len(),
    ensures
        set.contains(path[k]),
    decreases k,
{
    if k > 0 {
        lemma_path_in_set(g, set, path, k - 1);
        assert(g.edge(path[k - 1], path[k - 1 + 1]));
    }
}

/// Whether the object at `obj` lies in one of the two spaces.
pub open spec fn resident(immix: ImmixSpaceView, lo: FreeListView, obj: int) -> bool {
    immix.contains(obj) || has_node_at(lo.nodes, obj)
}

/// Whether the object at `obj` is marked: by its mark bit where it lies in
/// the Immix space, by the mark of its node otherwise.
pub open spec fn is_marked(immix: ImmixSpaceView, lo: FreeListView, obj: int) -> bool {
    if immix.contains(obj) {
        immix.is_marked(obj)
    } else {
        has_live_node_at(lo.nodes, obj)
    }
}

/// Whether each object of the graph lies in one of the two spaces, those of
/// the Immix space at a word boundary.
pub open spec fn housed(g: ObjectGraph, immix: ImmixSpaceView, lo: FreeListView) -> bool {
    forall|obj: int| #[trigger]
        g.slots.contains_key(obj) ==> {
            &&& resident(immix, lo, obj)
            &&& immix.contains(obj) ==> (obj - immix.start) % (POINTER_SIZE as int) == 0
        }
}

} // verus!
