//! What a whole collection does to the heap: what the roots reach stays
//! where it is, what they do not reach goes, and a second collection right
//! after the first finds nothing more to take.

use vstd::prelude::*;
use crate::common::POINTER_SIZE;
use crate::heap::freelist::{
    dead_nodes,
    has_live_node_at,
    has_node_at,
    lemma_sweep_step,
    swept,
    NodeMark,
    NodeView,
};
use crate::heap::immix::{LineMark, BYTES_IN_BLOCK, BYTES_IN_LINE, LINES_IN_BLOCK, MARKS_IN_LINE};
use crate::heap::immix::immix_space::{line_has_mark, swept_line, ImmixSpaceView};
use crate::heap::freelist::FreeListView;
use super::graph::{is_marked, ObjectGraph};
use super::tracer::{lemma_trace_end, lemma_word_in_range, TracerView};

verus! {

/// Each node that a sweep keeps was a live node with the same place, size
/// and id, and each live node is kept.
pub proof fn lemma_swept_nodes(nodes: Seq<NodeView>)
    ensures
        forall|i: int|
            0 <= i < swept(nodes).len() ==> exists|j: int|
                0 <= j < nodes.len() && (#[trigger] nodes[j]).mark == NodeMark::Live && (
                #[trigger] swept(nodes)[i]) == nodes[j].with_mark(NodeMark::PrevLive),
        forall|j: int|
            0 <= j < nodes.len() && (#[trigger] nodes[j]).mark == NodeMark::Live ==> swept(
                nodes,
            ).contains(nodes[j].with_mark(NodeMark::PrevLive)),
        forall|i: int|
            0 <= i < dead_nodes(nodes).len() ==> exists|j: int|
                0 <= j < nodes.len() && (#[trigger] nodes[j]).mark != NodeMark::Live && (
                #[trigger] dead_nodes(nodes)[i]) == nodes[j],
    decreases nodes.len(),
{
    if nodes.len() > 0 {
        let init = nodes.drop_last();
        let last = nodes.last();
        let k = nodes.len() - 1;
        assert(nodes.take(k) =~= init);
        assert(nodes.take(k + 1) =~= nodes);
        lemma_sweep_step(nodes, k);
        lemma_swept_nodes(init);
        let kept = swept(nodes);
        let dead = dead_nodes(nodes);
        assert forall|i: int| 0 <= i < kept.len() implies exists|j: int|
            0 <= j < nodes.len() && (#[trigger] nodes[j]).mark == NodeMark::Live && (
            #[trigger] kept[i]) == nodes[j].with_mark(NodeMark::PrevLive) by {
            if i < swept(init).len() {
                assert(kept[i] == swept(init)[i]);
                let j = choose|j: int|
                    0 <= j < init.len() && (#[trigger] init[j]).mark == NodeMark::Live && swept(
                        init,
                    )[i] == init[j].with_mark(NodeMark::PrevLive);
                assert(nodes[j] == init[j]);
            } else {
                assert(nodes[k] == last);
            }
        }
        assert forall|j: int|
            0 <= j < nodes.len() && (#[trigger] nodes[j]).mark == NodeMark::Live implies kept.contains(
            nodes[j].with_mark(NodeMark::PrevLive),
        ) by {
            if j < k {
                assert(init[j] == nodes[j]);
                let w = init[j].with_mark(NodeMark::PrevLive);
                assert(swept(init).contains(w));
                let i = choose|i: int| 0 <= i < swept(init).len() && swept(init)[i] == w;
                assert(kept[i] == w);
            } else {
                assert(kept[kept.len() - 1] == last.with_mark(NodeMark::PrevLive));
            }
        }
        assert forall|i: int| 0 <= i < dead.len() implies exists|j: int|
            0 <= j < nodes.len() && (#[trigger] nodes[j]).mark != NodeMark::Live && (
            #[trigger] dead[i]) == nodes[j] by {
            if i < dead_nodes(init).len() {
                assert(dead[i] == dead_nodes(init)[i]);
                let j = choose|j: int|
                    0 <= j < init.len() && (#[trigger] init[j]).mark != NodeMark::Live
                        && dead_nodes(init)[i] == init[j];
                assert(nodes[j] == init[j]);
            } else {
                assert(nodes[k] == last);
            }
        }
    } else {
        assert(swept(nodes) =~= Seq::<NodeView>::empty());
        reveal(Seq::filter);
        assert(dead_nodes(nodes) =~= Seq::<NodeView>::empty());
    }
}

/// A large object that is marked live is still in the space after the
/// sweep, and one that is not is gone.
pub proof fn lemma_large_object_after_sweep(nodes: Seq<NodeView>, obj: int)
    ensures
        has_live_node_at(nodes, obj) <==> has_node_at(swept(nodes), obj),
{
    lemma_swept_nodes(nodes);
    let kept = swept(nodes);
    if has_live_node_at(nodes, obj) {
        let j = choose|j: int|
            0 <= j < nodes.len() && (#[trigger] nodes[j]).start == obj && nodes[j].mark
                == NodeMark::Live;
        let w = nodes[j].with_mark(NodeMark::PrevLive);
        assert(kept.contains(w));
        let i = choose|i: int| 0 <= i < kept.len() && kept[i] == w;
        assert(kept[i].start == obj);
    }
    if has_node_at(kept, obj) {
        let i = choose|i: int| 0 <= i < kept.len() && (#[trigger] kept[i]).start == obj;
        let j = choose|j: int|
            0 <= j < nodes.len() && (#[trigger] nodes[j]).mark == NodeMark::Live && (
            #[trigger] kept[i]) == nodes[j].with_mark(NodeMark::PrevLive);
        assert(nodes[j].start == obj);
    }
}

/// Where every node is live, the sweep keeps them all and reclaims none.
pub proof fn lemma_sweep_all_live(nodes: Seq<NodeView>)
    requires
        forall|i: int| 0 <= i < nodes.len() ==> (#[trigger] nodes[i]).mark == NodeMark::Live,
    ensures
        swept(nodes) == nodes.map_values(|n: NodeView| n.with_mark(NodeMark::PrevLive)),
        dead_nodes(nodes).len() == 0,
    decreases nodes.len(),
{
    if nodes.len() > 0 {
        let init = nodes.drop_last();
        let k = nodes.len() - 1;
        assert(nodes.take(k) =~= init);
        assert(nodes.take(k + 1) =~= nodes);
        lemma_sweep_step(nodes, k);
        assert forall|i: int| 0 <= i < init.len() implies (#[trigger] init[i]).mark
            == NodeMark::Live by {
            assert(init[i] == nodes[i]);
        }
        lemma_sweep_all_live(init);
        assert(swept(nodes) =~= nodes.map_values(|n: NodeView| n.with_mark(NodeMark::PrevLive)));
    } else {
        assert(swept(nodes) =~= nodes.map_values(|n: NodeView| n.with_mark(NodeMark::PrevLive)));
        reveal(Seq::filter);
    }
}

/// After the sweep, no line is free that holds a byte of a marked object
/// of the Immix space that is no longer than a line and lies within one
/// block.
pub proof fn lemma_marked_object_keeps_its_lines(immix: ImmixSpaceView, obj: int, size: int, x: int)
    requires
        immix.wf(),
        immix.is_marked(obj),
        0 < size <= BYTES_IN_LINE,
        obj + size <= immix.block_start(immix.block_of(obj) + 1),
        obj <= x < obj + size,
    ensures
        immix.swept().contains(x),
        immix.swept().lines[immix.line_of(x)] != LineMark::Free,
        immix.swept().lines[immix.line_of(obj)] == LineMark::Marked,
{
    lemma_word_in_range(immix, obj);
    let base = immix.line_of(obj);
    let word = (obj - immix.start) / (POINTER_SIZE as int);
    assert(base * MARKS_IN_LINE <= word < (base + 1) * MARKS_IN_LINE);
    assert(line_has_mark(immix.marks, base));
    let b = immix.block_of(obj);
    assert(immix.n_blocks() * BYTES_IN_BLOCK >= (b + 1) * BYTES_IN_BLOCK) by (nonlinear_arith)
        requires
            0 <= b < immix.n_blocks(),
    ;
    let l = immix.line_of(x);
    assert(l == base || l == base + 1);
    assert(0 <= l < immix.lines.len());
    if l == base + 1 {
        assert(l % (LINES_IN_BLOCK as int) != 0);
        assert(swept_line(immix.marks, l) != LineMark::Free);
    }
}

/// No bytes handed out after the sweep overlap a marked object of the
/// Immix space that is no longer than a line: an allocation takes free
/// lines only.
pub proof fn lemma_marked_object_not_reused(
    immix: ImmixSpaceView,
    obj: int,
    size: int,
    addr: int,
    len: int,
)
    requires
        immix.wf(),
        immix.is_marked(obj),
        0 < size <= BYTES_IN_LINE,
        obj + size <= immix.block_start(immix.block_of(obj) + 1),
        len > 0,
        immix.swept().range_free(addr, len),
    ensures
        addr + len <= obj || obj + size <= addr,
{
    if !(addr + len <= obj || obj + size <= addr) {
        let x = if addr >= obj {
            addr
        } else {
            obj
        };
        lemma_marked_object_keeps_its_lines(immix, obj, size, x);
        let after = immix.swept();
        let l = after.line_of(x);
        assert(after.line_of(addr) <= l <= after.line_of(addr + len - 1));
        assert(after.lines[l] == LineMark::Free);
    }
}

/// After the sweep, a line is free where no marked object starts in it nor,
/// within the block, in the line before it.
pub proof fn lemma_unmarked_line_is_free(immix: ImmixSpaceView, line: int)
    requires
        immix.wf(),
        0 <= line < immix.lines.len(),
        !line_has_mark(immix.marks, line),
        line % (LINES_IN_BLOCK as int) == 0 || !line_has_mark(immix.marks, line - 1),
    ensures
        immix.swept().lines[line] == LineMark::Free,
{
}

/// A collection frees every line in which no reachable object of the
/// Immix space starts, nor one in the line before it within the block.
pub proof fn lemma_unreachable_lines_are_free(
    t: TracerView,
    g: ObjectGraph,
    immix: ImmixSpaceView,
    lo: FreeListView,
    line: int,
)
    requires
        t.inv(g, immix, lo),
        t.finished(),
        0 <= line < immix.lines.len(),
        forall|obj: int|
            g.reachable(obj) && immix.contains(obj) ==> {
                &&& #[trigger] immix.line_of(obj) != line
                &&& line % (LINES_IN_BLOCK as int) != 0 ==> immix.line_of(obj) != line - 1
            },
    ensures
        immix.swept().lines[line] == LineMark::Free,
{
    lemma_trace_end(t, g, immix, lo);
    assert forall|l: int| (l == line || (l == line - 1 && line % (LINES_IN_BLOCK as int) != 0))
        && 0 <= l implies !line_has_mark(immix.marks, l) by {
        if line_has_mark(immix.marks, l) {
            let p = choose|p: int|
                l * MARKS_IN_LINE <= p < (l + 1) * MARKS_IN_LINE && #[trigger] immix.marks[p];
            lemma_mark_bit_of_log(t, g, immix, lo, p);
            let obj = choose|obj: int| #[trigger]
                t.log.contains(obj) && immix.contains(obj) && (obj - immix.start) / (
                POINTER_SIZE as int) == p;
            assert(g.reachable(obj));
            assert(immix.line_of(obj) == l);
        }
    }
    lemma_unmarked_line_is_free(immix, line);
}

/// Whether two lists hold the same nodes but for their marks.
pub open spec fn same_but_marks(a: Seq<NodeView>, b: Seq<NodeView>) -> bool {
    &&& a.len() == b.len()
    &&& forall|i: int|
        0 <= i < a.len() ==> (#[trigger] a[i]).with_mark(NodeMark::Live) == b[i].with_mark(
            NodeMark::Live,
        )
}

/// A collection keeps what the roots reach and takes the rest: at the end
/// of the trace an object of the graph is marked just where it is
/// reachable, so the sweep keeps the nodes of the reachable large objects
/// and no others, and the mark bits of the reachable Immix objects are set.
pub proof fn lemma_collection_keeps_reachable(
    t: TracerView,
    g: ObjectGraph,
    immix: ImmixSpaceView,
    lo: FreeListView,
    obj: int,
)
    requires
        t.inv(g, immix, lo),
        t.finished(),
        g.slots.contains_key(obj),
    ensures
        immix.contains(obj) ==> (g.reachable(obj) <==> immix.swept().is_marked(obj)),
        !immix.contains(obj) ==> (g.reachable(obj) <==> has_node_at(swept(lo.nodes), obj)),
{
    lemma_trace_end(t, g, immix, lo);
    assert(g.reachable(obj) <==> is_marked(immix, lo, obj));
    lemma_large_object_after_sweep(lo.nodes, obj);
}

/// A reachable object of the Immix space that is no longer than a line
/// outlives the collection where it is: its mark bit is set, its first line
/// is marked, and no bytes handed out after the sweep overlap it.
pub proof fn lemma_reachable_object_survives(
    t: TracerView,
    g: ObjectGraph,
    immix: ImmixSpaceView,
    lo: FreeListView,
    obj: int,
    size: int,
    addr: int,
    len: int,
)
    requires
        t.inv(g, immix, lo),
        t.finished(),
        g.reachable(obj),
        immix.contains(obj),
        0 < size <= BYTES_IN_LINE,
        obj + size <= immix.block_start(immix.block_of(obj) + 1),
        len > 0,
        immix.swept().range_free(addr, len),
    ensures
        immix.swept().is_marked(obj),
        immix.swept().lines[immix.line_of(obj)] == LineMark::Marked,
        addr + len <= obj || obj + size <= addr,
{
    lemma_trace_end(t, g, immix, lo);
    assert(is_marked(immix, lo, obj));
    lemma_marked_object_keeps_its_lines(immix, obj, size, obj);
    lemma_marked_object_not_reused(immix, obj, size, addr, len);
}

/// A second collection right after the first, with the same roots and the
/// same graph, takes nothing: it sets the same mark bits, so the sweep
/// gives every line and block the state it had, and it keeps every node.
pub proof fn lemma_second_collection_takes_nothing(
    g: ObjectGraph,
    t1: TracerView,
    immix1: ImmixSpaceView,
    lo1: FreeListView,
    t2: TracerView,
    immix2: ImmixSpaceView,
    lo2: FreeListView,
)
    requires
        t1.inv(g, immix1, lo1),
        t1.finished(),
        t2.inv(g, immix2, lo2),
        t2.finished(),
        immix2.start == immix1.start,
        immix2.n_blocks() == immix1.n_blocks(),
        same_but_marks(lo2.nodes, swept(lo1.nodes)),
    ensures
        immix2.marks == immix1.marks,
        immix2.swept().lines == immix1.swept().lines,
        immix2.swept().blocks == immix1.swept().blocks,
        swept(lo2.nodes) == swept(lo1.nodes),
        dead_nodes(lo2.nodes).len() == 0,
{
    lemma_trace_end(t1, g, immix1, lo1);
    lemma_trace_end(t2, g, immix2, lo2);
    assert forall|obj: int| t1.log.contains(obj) <==> t2.log.contains(obj) by {}
    assert forall|p: int| 0 <= p < immix1.marks.len() implies immix1.marks[p] == immix2.marks[p] by {
        lemma_mark_bit_of_log(t1, g, immix1, lo1, p);
        lemma_mark_bit_of_log(t2, g, immix2, lo2, p);
    }
    assert(immix2.marks =~= immix1.marks);
    lemma_swept_nodes(lo1.nodes);
    let kept = swept(lo1.nodes);
    assert forall|i: int| 0 <= i < lo2.nodes.len() implies (#[trigger] lo2.nodes[i]).mark
        == NodeMark::Live by {
        let j = choose|j: int|
            0 <= j < lo1.nodes.len() && (#[trigger] lo1.nodes[j]).mark == NodeMark::Live && (
            #[trigger] kept[i]) == lo1.nodes[j].with_mark(NodeMark::PrevLive);
        assert(t1.log.contains(lo1.nodes[j].start));
        assert(lo2.nodes[i].with_mark(NodeMark::Live) == kept[i].with_mark(NodeMark::Live));
        assert(lo2.nodes[i].start == lo1.nodes[j].start);
        assert(t2.log.contains(lo2.nodes[i].start));
    }
    lemma_sweep_all_live(lo2.nodes);
    assert(swept(lo2.nodes) =~= kept) by {
        assert forall|i: int| 0 <= i < kept.len() implies swept(lo2.nodes)[i] == kept[i] by {
            let j = choose|j: int|
                0 <= j < lo1.nodes.len() && (#[trigger] lo1.nodes[j]).mark == NodeMark::Live && (
                #[trigger] kept[i]) == lo1.nodes[j].with_mark(NodeMark::PrevLive);
            assert(lo2.nodes[i].with_mark(NodeMark::Live) == kept[i].with_mark(NodeMark::Live));
        }
    }
}

/// At any time of a trace, a mark bit is set just where the log holds an
/// object of the Immix space in that word.
pub proof fn lemma_mark_bit_of_log(
    t: TracerView,
    g: ObjectGraph,
    immix: ImmixSpaceView,
    lo: FreeListView,
    p: int,
)
    requires
        t.inv(g, immix, lo),
        0 <= p < immix.marks.len(),
    ensures
        immix.marks[p] <==> exists|obj: int| #[trigger]
            t.log.contains(obj) && immix.contains(obj) && (obj - immix.start) / (
            POINTER_SIZE as int) == p,
{
    if exists|obj: int| #[trigger]
        t.log.contains(obj) && immix.contains(obj) && (obj - immix.start) / (POINTER_SIZE as int)
            == p {
        let obj = choose|obj: int| #[trigger]
            t.log.contains(obj) && immix.contains(obj) && (obj - immix.start) / (
            POINTER_SIZE as int) == p;
        let i = choose|i: int| 0 <= i < t.log.len() && t.log[i] == obj;
        assert(is_marked(immix, lo, t.log[i]));
    }
}

} // verus!
